//! Exact analysis of osu!mania beatmaps.

pub mod text;
pub mod number;
pub mod wide;
pub mod big;
pub mod order;
pub mod counting;
pub mod types;
pub mod beatmap;
pub mod codec;
pub mod columns;
pub mod timeline;
pub mod tally;
pub mod strain;
pub mod features;
pub mod analyzer;
pub mod chart;
pub mod parser;
pub mod board;
pub mod primitives;
pub mod patterns;
pub mod held;
pub mod hold_patterns;
pub mod finder;
pub mod config;
pub mod intervals;
pub mod clustering;
pub mod summary;
pub mod profile;
pub mod rate;
pub mod velocity;
pub mod mma;
pub mod binary32;
pub mod record;
pub mod storage;
pub mod reanalysis;
pub mod downloads;
pub mod symmetry;
pub mod playing;
pub mod outline;
pub mod course;
pub mod matching;
pub mod kinds;
pub mod naming;
pub mod alternation;
pub mod holding;
pub mod hands;
pub mod cover;
pub mod gathering;
pub mod telling;
pub mod wording;
pub mod charting;
pub mod scrolling;
pub mod weighing;
pub mod upkeep;
pub mod figures;
pub mod beats;
pub mod marks;
pub mod light;
pub mod sectioning;
pub mod pacing;
pub mod reading;
pub mod reflection;
pub mod shares;
pub mod plain;
pub mod moving;
pub mod shifting;
pub mod ranking;
