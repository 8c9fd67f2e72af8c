pub mod scan_stage;
