pub mod topology;
