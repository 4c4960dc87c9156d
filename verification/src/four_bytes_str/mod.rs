pub mod custom_string;
