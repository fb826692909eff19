//! Labello: verified bookkeeping for an image-annotation workspace.
pub mod assignment;
pub mod review_history;
pub mod focus;
pub mod queue;
pub mod calendar;
pub mod leaderboard;
pub mod build_information;
pub mod keyed;
pub mod stats;
pub mod contributors;
pub mod review_context;
pub mod export;
pub mod image_quality;
pub mod presence;
pub mod activity;
pub mod avatar;
pub mod workspace;
pub mod models;
pub mod prelabels;
pub mod prelabel_review;
pub mod leaderboard_table;
pub mod review_revision;
pub mod inspector;
pub mod leaderboard_period;
pub mod review_progress;
