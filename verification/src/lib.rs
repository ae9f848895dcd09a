//! Verified core of the rengine game framework: the ordered DAG that backs
//! the GUI graph, string interning, option helpers and the integer logic of
//! metrics, GUI meshes and mod loading.
#![allow(unused_imports)]

pub mod option;
pub mod intern;
pub mod collections;
pub mod gui;
pub mod camera;
pub mod comp;
pub mod modding;
pub mod metrics;
