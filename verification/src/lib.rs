//! The logic of the Plotica desktop shell: Google sign-in through the system
//! browser with PKCE and a loopback redirect, and the helpers behind saving,
//! printing and exporting documents.

use vstd::prelude::*;

pub mod codec;
pub mod export;
pub mod loopback;
pub mod oauth;
pub mod text;

pub use export::sanitize_file_name;
pub use oauth::Tokens;

verus! {

} // verus!
