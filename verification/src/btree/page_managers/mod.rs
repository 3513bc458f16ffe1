pub mod file_utils;
pub mod page_manager;
pub mod persistent_page_manager;
