pub mod capability;
pub mod text;
pub mod pipeline;
pub mod wire;
pub mod net;
pub mod protocol;
pub mod transport;
pub mod reassembly;
pub mod recovery;
pub mod runtime;
pub mod receiver;
pub mod sender;
pub mod settings;
pub mod camera_pipe;
pub mod mft;
pub mod windows_mf;
