mod bytes;
mod handler;
mod headers;
mod line_pool;
mod matcher;
mod method;
mod req;
mod res;
mod route_map;
mod trie;

pub use handler::Handle;
pub use headers::Headers;
pub use line_pool::LinePool;
pub use line_pool::Phase;
pub use line_pool::PoolAction;
pub use line_pool::SendError;
pub use line_pool::respond_empty_fallback;
pub use line_pool::respond_not_found;
pub use matcher::MatchChain;
pub use matcher::MatchEntry;
pub use matcher::Muxer;
pub use method::Method;
pub use req::Req;
pub use req::ReqError;
pub use res::Res;
pub use res::RespondError;
pub use route_map::RouteMap;
pub use trie::Node;
pub use trie::Trie;
