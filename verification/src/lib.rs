mod addr;
mod rnd;
mod key;
mod peer;
mod hexs;
mod wire;
mod protocol;
mod kadproto;
mod peermap;
mod utils;
mod routable;
mod routing;
mod gd_udp;
mod kad;
mod handler;
mod transport;
mod gossip;
mod record;

pub use addr::NetAddr;
pub use key::Key;
pub use peer::{PeerId, PeerInfo, PeerInfoDistancePair};
pub use protocol::{packetize, Packet, AckMessage, Header, Message, MessageKey, KadMessage};
pub use kadproto::{RPC, Req, Resp, Fwd, Request, Response};
pub use routing::{KBucket, RoutingTable, MAX_BUCKET_LEN, MAX_BUCKETS, REFRESH_INTEVAL};
pub use gd_udp::{GDUdp, OutboxEntry, OutboxStream, MAINTENANCE_NS, RETURN_RECEIPT, NO_RETURN_RECEIPT, MAX_SEND_ATTEMPTS};
pub use kad::{Kademlia, DEFAULT_N_PEERS, REQ_TIMEOUT, MAX_ACTIVE_RPCS, KAD_MESSAGE_LEN};
pub use handler::{MessageHandler, PendingStream, Dispatch};
pub use transport::Transport;
pub use gossip::{GossipConfig, GossipService, GossipMessage, CacheEntry};
pub use record::{Record, Store, StoreError};
pub use utils::{timestamp_now, Distance, Timestamp};
pub use routable::Routable;
