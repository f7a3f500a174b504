//! The verified core of the Slot+ handheld frontend: its menus, its Wi-Fi and transfer rules,
//! and the parsers they rely on.
pub mod face;
pub mod input;
pub mod link;
pub mod quick_menu;
pub mod sorting;
pub mod text;
pub mod transfer;
pub mod transfer_menu;
pub mod update;
pub mod wifi;
pub mod wifi_menu;
