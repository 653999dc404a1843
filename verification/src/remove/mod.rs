pub mod gif;
pub mod gif_laws;
pub mod isobmff;
pub mod heic_items;
pub mod heic_props;
pub mod heic;
pub mod mp3;
pub mod webp;
pub mod webp_laws;
pub mod heic_laws;
pub mod heic_item_laws;
pub mod iloc_laws;
