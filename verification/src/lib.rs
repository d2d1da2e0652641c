//! The logic of a two-panel file manager's user interface.
//!
//! Nothing here draws, reads a file or starts a program. A panel, a table or a
//! dialog is a plain value; what is pressed, clicked or finished in the
//! background is handed to it, and it answers with what is shown and with what
//! is left to do outside.
//!
//! The table: [`listing`] holds a directory, [`file_table`] its rows, cursor
//! and selection, [`table_search`] type-ahead search, [`table_view`] where a
//! tab is and has been, [`table_actions`] what its keys do, [`panel`] the tabs
//! and [`columns`] the columns.
//!
//! The dialogs: [`copy_move_dialog`], [`delete_dialog`], [`mkdir_dialog`],
//! [`link_dialog`], [`attributes_dialog`], [`conflict_dialog`],
//! [`job_report_dialog`] and [`operation_manager`].
//!
//! Beside them: [`launcher`] and [`open_with`] open files, [`icons`] and
//! [`icon_cache`] hold their icons, [`clipboard`], [`hotlist`],
//! [`command_palette`] and [`function_bar`] are what their names say.

pub mod attributes_dialog;
pub mod calendar;
pub mod clipboard;
pub mod columns;
pub mod command_palette;
pub mod conflict_dialog;
pub mod copy_move_dialog;
pub mod delete_dialog;
pub mod dialog_job;
pub mod file_table;
pub mod function_bar;
pub mod hotlist;
pub mod icon_cache;
pub mod icons;
pub mod job_report_dialog;
pub mod jobs;
pub mod launcher;
pub mod link_dialog;
pub mod listing;
pub mod mkdir_dialog;
pub mod open_with;
pub mod operation_manager;
pub mod panel;
pub mod paths;
pub mod quick_search;
pub mod sizes;
pub mod table_actions;
pub mod table_search;
pub mod table_view;
pub mod text;
pub mod vpath;

