pub mod imdb;
