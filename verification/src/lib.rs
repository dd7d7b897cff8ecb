//! The logic of a simulated network of drones that carry a chat: packets and their
//! fragments, drones, two makes of clients, servers, the simulation controller and the
//! state behind the windows of the user.
pub mod adjacency;
pub mod changes;
pub mod channels;
pub mod chat_laws;
pub mod chat_log;
pub mod chat_ui;
pub mod client1;
pub mod client2;
pub mod client2_laws;
pub mod client_laws;
pub mod config;
pub mod config_check;
pub mod config_laws;
pub mod control_laws;
pub mod controller;
pub mod delivery;
pub mod discovery_laws;
pub mod drawing_laws;
pub mod drone;
pub mod drone_laws;
pub mod flood_laws;
pub mod floods;
pub mod fragment;
pub mod graphs;
pub mod gui_queue;
pub mod journal;
pub mod journal_laws;
pub mod known_network;
pub mod laws;
pub mod media;
pub mod mesh;
pub mod network_app;
pub mod notices;
pub mod packet;
pub mod plain_drone_laws;
pub mod preset_laws;
pub mod presets;
pub mod reach;
pub mod reading_laws;
pub mod renderer;
pub mod renderer_changes;
pub mod route_laws;
pub mod routing;
pub mod sc_backend;
pub mod sc_changes;
pub mod sc_laws;
pub mod sending_laws;
pub mod server;
pub mod server_change_laws;
pub mod server_control;
pub mod server_laws;
pub mod server_network;
pub mod server_requests;
pub mod tables;
pub mod text;
pub mod text_laws;
pub mod topology;
pub mod topology_laws;
pub mod validity_laws;
pub mod wg_drone;
pub mod window_laws;
pub mod wording;
