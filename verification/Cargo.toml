[package]
name = "archetype_ecs"
version = "0.1.0"
edition = "2021"
publish = false

[dependencies]
gl = "=0.14.0"
glam = "=0.22.0"
sdl2 = "=0.35.2"
thiserror = "=1.0.69"
winapi = { version = "=0.3.9", features = ["consoleapi", "errhandlingapi", "fileapi", "handleapi", "winnt", "winuser"] }
