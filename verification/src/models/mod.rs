pub mod surface_format;
pub mod type_reader;
pub mod xnb_file_header;
pub mod xnb_effect;
pub mod xnb_texture2d;
pub mod xnb_file;
