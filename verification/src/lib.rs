//! The tiling layouts of a compositor's workspaces: a tree of groups, and a scrolling strip of
//! columns.

pub mod action_laws;
pub mod actions;
pub mod arrangement_laws;
pub mod balance;
pub mod classic;
pub mod column_laws;
pub mod columns;
pub mod config;
pub mod copies;
pub mod data;
pub mod doubles;
pub mod drag_laws;
pub mod dragging;
pub mod drop_laws;
pub mod drops;
pub mod exchange_laws;
pub mod extent_laws;
pub mod fitting;
pub mod focus;
pub mod focus_laws;
pub mod geometry;
pub mod graft;
pub mod groupview;
pub mod growth_laws;
pub mod hover;
pub mod hover_laws;
pub mod keys;
pub mod laws;
pub mod layout;
pub mod layout_laws;
pub mod lineage;
pub mod lookups;
pub mod mapping;
pub mod moves;
pub mod navigation;
pub mod neighbours;
pub mod order_laws;
pub mod place_laws;
pub mod placement;
pub mod pointer;
pub mod pointer_laws;
pub mod queue;
pub mod queue_laws;
pub mod rendering;
pub mod reorder;
pub mod reshape;
pub mod restore_laws;
pub mod return_laws;
pub mod rows;
pub mod scrolling;
pub mod span_laws;
pub mod strip;
pub mod strip_actions;
pub mod strip_laws;
pub mod surgery;
pub mod target_laws;
pub mod transfers;
pub mod tree;
pub mod tree_actions;
pub mod tree_laws;
pub mod twins;
pub mod unit_laws;
pub mod units;
pub mod unmapping;
pub mod view_laws;
pub mod viewport;
pub mod viewport_laws;
pub mod zones;
