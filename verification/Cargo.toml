[package]
name = "radar"
version = "0.1.0"
edition = "2021"
publish = false

[dependencies]
byteorder = "=1.5.0"
encoding = "=0.2.33"
anyhow = "=1.0.104"
calamine = "=0.38.0"
pcap-file = "=2.0.0"
pdu = "=1.5.1"
tokio = { version = "=1.54.1", features = ["rt-multi-thread", "macros", "net", "time", "signal", "io-util"] }
serde = { version = "=1.0.229", features = ["derive"] }
serde_json = "=1.0.154"
bincode = { version = "=2.0.1", features = ["derive"] }
chrono = "=0.4.45"
can-dbc = "=10.0.0"
prettytable-rs = "=0.10.0"
crossterm = "=0.29.0"
ratatui = "=0.30.2"
tui-big-text = "=0.8.10"
mio = "=0.6.23"
slab = "=0.3.0"
plotters = { version = "=0.3.7", default-features = false, features = ["bitmap_backend", "bitmap_encoder", "line_series", "ab_glyph", "datetime"] }
trippy-core = "=0.13.0"
single-ping = "=0.1.1"
