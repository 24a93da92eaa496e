pub mod google_translate;
pub mod youdao;
