pub mod assoc;
pub mod image_data;
pub mod image_proc;
pub mod text;
