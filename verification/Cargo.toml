[package]
name = "todo_cras"
version = "0.1.0"
edition = "2021"
publish = false

[dependencies]
chrono = "0.4"
fastrand = "1"
home = "0.5"
read_input = "0.8"
termcolor = "1"
termion = "1"
