//! A greedy string-art engine: pins sit on a circle, and an optimizer
//! picks pin-to-pin lines whose cumulative rendering approximates a
//! raster image. The core pieces are an integer line rasterizer, three
//! scoring policies (darkness-sum, squared-color-error reduction, and
//! binary ink classification), the canvas mutators, and the greedy
//! single-path and multi-path selection loops, each with a contract that
//! pins down what it computes.

use vstd::prelude::*;

mod circle;
mod cli;
mod color;
mod image;
mod rasterizer;
mod scoring;
mod solver;

pub use circle::Circle;
pub use circle::IntegerPoint;
pub use cli::Cli;
pub use color::blend_channel;
pub use color::blend_px;
pub use color::blend_image_with_line;
pub use color::blend_line;
pub use color::blend_rgb;
pub use color::cand_gain;
pub use color::get_line_error_reduction;
pub use color::lemma_line_gain_out_of_bounds;
pub use color::lemma_path_of_color_props;
pub use color::lemma_single_palette_single_path;
pub use color::line_gain;
pub use color::point_gain;
pub use color::sq_err;
pub use color::multicolor_step_ok;
pub use color::path_of_color;
pub use color::replay_color;
pub use color::solve_multicolor;
pub use color::ColorImage;
pub use color::Move;
pub use color::Rgb;
pub use image::bilevel;
pub use image::dithered_bilevel;
pub use image::grid_in_bounds;
pub use image::grid_index;
pub use image::resized_luma;
pub use image::Image;
pub use image::ImageDimensions;
pub use rasterizer::bresenham;
pub use rasterizer::chebyshev_adjacent;
pub use rasterizer::coord_ok;
pub use rasterizer::lemma_raster_no_gaps;
pub use rasterizer::lemma_raster_symmetric;
pub use rasterizer::raster_seq;
pub use rasterizer::seq_pairs;
pub use scoring::below_quality_threshold;
pub use scoring::get_line_accuracy;
pub use scoring::get_line_darkness;
pub use scoring::is_better_candidate;
pub use scoring::lemma_line_darkness_bounds;
pub use scoring::lemma_line_darkness_out_of_bounds;
pub use scoring::lemma_pair_index_bounds;
pub use scoring::line_accuracy;
pub use scoring::point_darkness;
pub use scoring::point_ink;
pub use scoring::line_darkness;
pub use scoring::line_darkness_at;
pub use scoring::point_darkness_at;
pub use scoring::lemma_line_darkness_at_bounds;
pub use scoring::lemma_line_darkness_at_out_of_bounds;
pub use scoring::pair_index;
pub use scoring::point_to_index;
pub use scoring::prefer_counts;
pub use solver::accuracy_halted;
pub use solver::accuracy_step_ok;
pub use solver::greedy_step_ok;
pub use solver::best_candidate;
pub use solver::best_candidate_accuracy;
pub use solver::cand_counts;
pub use solver::cand_ok;
pub use solver::cand_score;
pub use solver::lemma_lighten_line_darkness;
pub use solver::lemma_replay_gray_darkness;
pub use solver::lemma_replay_gray_step_darkness;
pub use solver::lighten_image_with_line;
pub use solver::lighten_line;
pub use solver::lighten_px;
pub use solver::sat_add;
pub use solver::path_cand_ok;
pub use solver::path_line_id;
pub use solver::replay_gray;
pub use solver::solve;
pub use solver::solve_accuracy;
pub use solver::total_darkness;

verus! {

} // verus!
