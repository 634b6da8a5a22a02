pub mod scan;

pub mod grammar;

pub mod util;

pub mod code;

pub mod links;

pub mod images;

pub mod headers;

pub mod paragraphs;

pub mod block;
