// Search for a Carcassonne tile layout with few structural conflicts.
//
// model       tiles, orientations and the board, with their views
// flood       clustering of a graph by flood fill, shared by both analyses
// carcassone  the fitness score: clusters, edge matching, open towns, towns
// algorithm   a candidate layout, and the resolution of overlapping tiles
// evolution   the evolutionary search: selection, crossover, mutation
pub mod algorithm;
pub mod carcassone;
pub mod evolution;
pub mod flood;
pub mod model;
