//! Dive telemetry overlay: the verified core.

pub mod binary64;
pub mod cell_laws;
pub mod choice_laws;
pub mod clip_run;
pub mod clock_laws;
pub mod column_laws;
pub mod command_line;
pub mod csv_data;
pub mod cue_laws;
pub mod curve_laws;
pub mod depth_graph;
pub mod dive_log;
pub mod edge_laws;
pub mod error;
pub mod ffprobe;
pub mod frame_laws;
pub mod graph_laws;
pub mod joining_laws;
pub mod line_laws;
pub mod list_laws;
pub mod log_laws;
pub mod lookup;
pub mod merge;
pub mod merge_laws;
pub mod middle_laws;
pub mod model;
pub mod moment;
pub mod natural;
pub mod nearest;
pub mod number_laws;
pub mod number_text;
pub mod numeral;
pub mod order_laws;
pub mod overlay;
pub mod overlay_lines;
pub mod paths;
pub mod picture;
pub mod picture_laws;
pub mod pipeline;
pub mod place_laws;
pub mod planar;
pub mod preview;
pub mod probe_laws;
pub mod reading_laws;
pub mod resolution_laws;
pub mod rounding;
pub mod run_laws;
pub mod run_report;
pub mod session;
pub mod share_laws;
pub mod step_laws;
pub mod subtitle;
pub mod subtitle_laws;
pub mod sync;
pub mod text;
pub mod text_map;
pub mod track_laws;
pub mod update_check;
pub mod window_laws;
pub mod worker_run;
pub mod yuv;

pub use error::{CoreError, CoreResult};
pub use model::{DiveSample, Field};
