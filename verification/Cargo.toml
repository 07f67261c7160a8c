[package]
name = "sigflow"
version = "0.1.0"
edition = "2021"
publish = false

[dependencies]
daggy = { version = "=0.7.0", features = ["stable_dag"] }
eq-float = "=0.1.0"
intmap = "=0.7.1"
linear-map = "=1.2.0"
num = "=0.4.3"
matches2 = "=1.2.1"
sample = "=0.10.0"
portaudio = "=0.7.1"
iced = "=0.1.1"
iced_native = "=0.2.2"
