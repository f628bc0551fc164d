//! Waiting zones at traffic lights, worked out from a road network.

pub mod approach;
pub mod arithmetic_laws;
pub mod boundaries;
pub mod box_laws;
pub mod chain_laws;
pub mod chains;
pub mod cleaning;
pub mod cleaning_laws;
pub mod closing_laws;
pub mod connectivity;
pub mod count_laws;
pub mod coverage_laws;
pub mod course_laws;
pub mod crossing_laws;
pub mod cutting;
pub mod decimal;
pub mod detector;
pub mod double;
pub mod drawing;
pub mod exact_laws;
pub mod features;
pub mod finishing;
pub mod fork_laws;
pub mod generation_laws;
pub mod geometry_laws;
pub mod graph_laws;
pub mod grid;
pub mod grouping;
pub mod grouping_laws;
pub mod hypotenuse;
pub mod id_set;
pub mod lane_table;
pub mod listing_laws;
pub mod lookup_laws;
pub mod measure;
pub mod merge_laws;
pub mod message_laws;
pub mod modes;
pub mod movement;
pub mod nearest_laws;
pub mod network;
pub mod network_laws;
pub mod order;
pub mod outline_laws;
pub mod overlaps;
pub mod padding_laws;
pub mod parting_laws;
pub mod path;
pub mod path_laws;
pub mod plane;
pub mod polygon_laws;
pub mod polygons;
pub mod product;
pub mod projection;
pub mod quoting;
pub mod reach_laws;
pub mod reprojection;
pub mod resolution;
pub mod resolution_laws;
pub mod ring;
pub mod ring_laws;
pub mod rounding;
pub mod shape;
pub mod shape_laws;
pub mod shaping_laws;
pub mod sibling_laws;
pub mod siblings;
pub mod signal_laws;
pub mod special_laws;
pub mod splitting;
pub mod stop_lines;
pub mod stop_laws;
pub mod stroke_laws;
pub mod successors;
pub mod threshold_laws;
pub mod trace_laws;
pub mod way_laws;
pub mod zone_generator;
pub mod zone_laws;
pub mod zone_output;
