pub mod text;
pub mod parser;
pub mod dom;
pub mod html;
pub mod css;
