[package]
name = "blogawrite"
version = "0.1.0"
edition = "2021"
publish = false

[dependencies]
pulldown-cmark = { version = "0.12", default-features = false }
cxx = "1"
cxx-qt = "0.7"
cxx-qt-lib = { version = "0.7", default-features = false, features = ["qt_gui", "qt_qml"] }
