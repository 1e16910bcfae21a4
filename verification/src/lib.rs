use vstd::prelude::*;

pub mod desktop;
pub mod icon_theme;
pub mod icons;
pub mod path;
pub mod resolver;
pub mod services;
pub mod settings;
pub mod sorting;
pub mod startup;
pub mod system;
pub mod text;
pub mod ui;
pub mod unicode;

verus! {

} // verus!
