pub mod text;
pub mod calendar;
pub mod frontmatter;
pub mod paths;
pub mod ideas;
pub mod users;
pub mod slug;
pub mod words;
pub mod index;
pub mod markdown;
pub mod sorted;
