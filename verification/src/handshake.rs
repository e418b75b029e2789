//! Joining a server: lease a client id, add a player, and take the player
//! that the server reports, ignoring every other message on the way.

use vstd::prelude::*;

verus! {

/// The id that the server leases to a client.
#[derive(Clone, Copy, Debug, PartialEq, Eq, Structural, Hash)]
pub struct ClientId(pub u32);

/// The id of an entity in the world.
#[derive(Clone, Copy, Debug, PartialEq, Eq, Structural, Hash)]
pub struct EntityId(pub u32);

/// A point in the world as the server sent it: the bits of its three
/// coordinates, which the handshake hands on untouched.
#[derive(Clone, Copy, Debug, PartialEq, Eq, Structural)]
pub struct WorldPoint {
    pub x_bits: u32,
    pub y_bits: u32,
    pub z_bits: u32,
}

/// What the handshake reads of a message from the server.
#[derive(Clone, Copy, Debug, PartialEq, Eq, Structural)]
pub enum ServerToClient {
    /// The server leases this id to the client.
    LeaseId(ClientId),
    /// The server has added the client's player, at this point.
    PlayerAdded(EntityId, WorldPoint),
    /// Any other message.
    Other,
}

/// What the handshake sends to the server.
#[derive(Debug, PartialEq, Eq)]
pub enum ClientToServer {
    /// The client listens at this address.
    Init(String),
    /// Add a player for the client with this id.
    AddPlayer(ClientId),
}

/// A client that has joined.
#[derive(Clone, Copy, Debug, PartialEq, Eq, Structural)]
pub struct Client {
    pub id: ClientId,
    pub player_id: EntityId,
    pub player_position: WorldPoint,
}

/// How far the handshake has come.
#[derive(Clone, Copy, Debug, PartialEq, Eq, Structural)]
pub enum Handshake {
    /// No id has been leased yet.
    AwaitingLease,
    /// An id has been leased and a player asked for.
    AwaitingPlayer(ClientId),
    /// The player has been added.
    Connected(Client),
}

/// The handshake after one more message: a lease is taken while none is
/// held, a player while one is awaited, and every other message is ignored.
pub open spec fn step(state: Handshake, message: ServerToClient) -> Handshake {
    match (state, message) {
        (Handshake::AwaitingLease, ServerToClient::LeaseId(id)) => Handshake::AwaitingPlayer(id),
        (Handshake::AwaitingPlayer(id), ServerToClient::PlayerAdded(player_id, position)) => {
            Handshake::Connected(Client { id, player_id, player_position: position })
        },
        _ => state,
    }
}

/// The id for which a message makes the handshake ask for a player, if it does.
pub open spec fn asks_player(state: Handshake, message: ServerToClient) -> Option<ClientId> {
    match (state, message) {
        (Handshake::AwaitingLease, ServerToClient::LeaseId(id)) => Some(id),
        _ => None,
    }
}

/// The handshake after a run of messages, from the start.
pub open spec fn handshake_after(messages: Seq<ServerToClient>) -> Handshake
    decreases messages.len(),
{
    if messages.len() == 0 {
        Handshake::AwaitingLease
    } else {
        step(handshake_after(messages.drop_last()), messages.last())
    }
}

/// The message asks the server for a player for this id.
pub open spec fn is_add_player(message: ClientToServer, id: ClientId) -> bool {
    match message {
        ClientToServer::AddPlayer(i) => i == id,
        _ => false,
    }
}

/// The message announces this address.
pub open spec fn is_init(message: ClientToServer, url: Seq<char>) -> bool {
    match message {
        ClientToServer::Init(s) => s@ == url,
        _ => false,
    }
}

/// Takes one message from the server: returns the handshake after it, and
/// the request for a player where the message is the lease.
pub fn connect_step(state: Handshake, message: &ServerToClient) -> (r: (
    Handshake,
    Option<ClientToServer>,
))
    ensures
        r.0 == step(state, *message),
        match asks_player(state, *message) {
            Some(id) => r.1.is_some() && is_add_player(r.1.unwrap(), id),
            None => r.1.is_none(),
        },
{
    match state {
        Handshake::AwaitingLease => match message {
            ServerToClient::LeaseId(id) => (
                Handshake::AwaitingPlayer(*id),
                Some(ClientToServer::AddPlayer(*id)),
            ),
            _ => (state, None),
        },
        Handshake::AwaitingPlayer(id) => match message {
            ServerToClient::PlayerAdded(player_id, position) => (
                Handshake::Connected(
                    Client { id, player_id: *player_id, player_position: *position },
                ),
                None,
            ),
            _ => (state, None),
        },
        Handshake::Connected(_) => (state, None),
    }
}

/// What a handshake over a run of messages comes to.
#[derive(Debug)]
pub struct Connection {
    /// How far the handshake came.
    pub state: Handshake,
    /// What was sent to the server, in order.
    pub sent: Vec<ClientToServer>,
    /// How many of the messages were taken.
    pub taken: usize,
}

/// What the handshake has sent by the time it is in `state`: its address,
/// and the request for a player once an id is leased.
pub open spec fn sent_by(sent: Seq<ClientToServer>, state: Handshake, url: Seq<char>) -> bool {
    &&& sent.len() >= 1
    &&& is_init(sent[0], url)
    &&& match state {
        Handshake::AwaitingLease => sent.len() == 1,
        Handshake::AwaitingPlayer(id) => sent.len() == 2 && is_add_player(sent[1], id),
        Handshake::Connected(client) => sent.len() == 2 && is_add_player(sent[1], client.id),
    }
}

/// Joins a server over the messages that it sends: announces the address,
/// asks for a player at the first lease, and stops at the first player added
/// after that, leaving the messages behind it untaken. Where the messages run
/// out first, all are taken and the handshake stands where they left it.
pub fn connect_client(listen_url: &str, messages: &Vec<ServerToClient>) -> (r: Connection)
    ensures
        r.taken <= messages.len(),
        r.state == handshake_after(messages@.take(r.taken as int)),
        r.taken < messages.len() ==> r.state is Connected,
        forall|n: int| 0 <= n < r.taken ==> !(#[trigger] handshake_after(messages@.take(n)) is Connected),
        sent_by(r.sent@, r.state, listen_url@),
{
    let mut sent: Vec<ClientToServer> = Vec::new();
    sent.push(ClientToServer::Init(listen_url.to_owned()));
    let mut state = Handshake::AwaitingLease;
    let mut taken: usize = 0;
    loop
        invariant_except_break
            !(state is Connected),
        invariant
            taken <= messages.len(),
            state == handshake_after(messages@.take(taken as int)),
            forall|n: int|
                0 <= n < taken ==> !(#[trigger] handshake_after(messages@.take(n)) is Connected),
            sent_by(sent@, state, listen_url@),
        ensures
            taken < messages.len() ==> state is Connected,
        decreases messages.len() - taken,
    {
        if taken >= messages.len() {
            break ;
        }
        proof {
            assert(messages@.take(taken + 1).drop_last() =~= messages@.take(taken as int));
        }
        let (next, reply) = connect_step(state, &messages[taken]);
        match reply {
            Some(message) => {
                sent.push(message);
            },
            None => {},
        }
        state = next;
        taken = taken + 1;
        match state {
            Handshake::Connected(_) => {
                break ;
            },
            _ => {},
        }
    }
    Connection { state, sent, taken }
}

} // verus!
