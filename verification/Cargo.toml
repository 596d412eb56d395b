[package]
name = "serval_layout"
version = "0.1.0"
edition = "2021"
publish = false

[dependencies]
accesskit = "=0.25.2"
app_units = "=0.7.8"
cssparser = "=0.37.0"
data-url = "=0.3.2"
euclid = "=0.22.14"
fontique = "=0.12.0"
html5ever = "0.39"
image = { version = "=0.25.10", default-features = false, features = ["png", "jpeg", "gif", "webp", "bmp", "ico"] }
markup5ever = "0.39"
parley = "=0.12.0"
resvg = "=0.49.0"
rustc-hash = "=2.1.3"
selectors = "=0.39.0"
servo_arc = "=0.4.3"
skrifa = "=0.44.0"
stylo = "=0.19.0"
stylo_dom = "=0.19.0"
stylo_static_prefs = "=0.19.0"
stylo_taffy = { version = "=0.3.0-beta.1", features = ["floats"] }
stylo_traits = "=0.19.0"
taffy = { version = "=0.12.2", features = ["float_layout"] }
url = "=2.5.8"

[dev-dependencies]
base64 = "=0.23.1"
