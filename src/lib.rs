pub mod arff;
pub mod cross;
pub mod decision;
pub mod entropy;
pub mod record;
