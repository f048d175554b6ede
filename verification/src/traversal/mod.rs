pub mod bfs;
pub mod dfs;

pub use bfs::BFS;
pub use dfs::PostOrderDFS;
pub use dfs::PreOrderDFS;
