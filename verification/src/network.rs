use crate::block::{Block, Orient};
use crate::grid::{Coord, InstanceID};
use crate::text::{decimal, decimal_text};
use vstd::prelude::*;
use vstd::string::*;

verus! {

pub type ClientID = String;

pub const SERVER_ID: &'static str = "";

pub const SERVER_DIRECTORY: &'static str = "./generated/";

pub const MAX_INCOMING_SIZE: usize = 65536;

/// What a client tells of itself when it joins. The three components of its
/// position and of its direction are carried as the bit patterns of the
/// numbers that the client sent.
#[derive(Debug)]
pub struct Client {
    pub name: String,
    pub position: (u32, u32, u32),
    pub direction: (u32, u32, u32),
}

pub struct ClientView {
    pub name: Seq<char>,
    pub position: (u32, u32, u32),
    pub direction: (u32, u32, u32),
}

impl View for Client {
    type V = ClientView;

    open spec fn view(&self) -> ClientView {
        ClientView { name: self.name@, position: self.position, direction: self.direction }
    }
}

impl Clone for Client {
    fn clone(&self) -> (copy: Self)
        ensures
            copy@ == self@,
    {
        Client { name: self.name.clone(), position: self.position, direction: self.direction }
    }
}

#[derive(Clone, Copy, Debug, PartialEq, Eq, Structural)]
pub struct ProtocolPlaceBlock {
    pub id: Option<InstanceID>,
    pub position: Coord,
    pub rotation: Orient,
    pub data: Block,
}

#[derive(Clone, Copy, Debug, PartialEq, Eq, Structural)]
pub struct ProtocolRemoveBlock {
    pub id: InstanceID,
}

#[derive(Clone, Copy, Debug, PartialEq, Eq, Structural)]
pub struct ProtocolUpdateBlock {
    pub id: InstanceID,
    pub position: Option<Coord>,
    pub rotation: Option<Orient>,
    pub data: Option<Block>,
}

#[derive(Clone, Debug)]
pub struct ProtocolResponse {
    pub ok: bool,
    pub message: String,
}

pub struct ResponseView {
    pub ok: bool,
    pub message: Seq<char>,
}

impl View for ProtocolResponse {
    type V = ResponseView;

    open spec fn view(&self) -> ResponseView {
        ResponseView { ok: self.ok, message: self.message@ }
    }
}

#[derive(Clone, Debug)]
pub struct ProtocolResponseMetadata {
    pub ticks: u32,
    pub clients: Vec<Client>,
}

/// The views of a list of clients.
pub open spec fn clients_view(clients: Seq<Client>) -> Seq<ClientView> {
    Seq::new(clients.len(), |i: int| clients[i]@)
}

#[derive(Clone, Debug)]
pub enum Protocol {
    BothNothing,
    BothResponse(ProtocolResponse),
    BothRequestPlaceBlocks(Vec<ProtocolPlaceBlock>),
    BothRequestUpdateBlocks(Vec<ProtocolUpdateBlock>),
    BothRequestRemoveBlocks(Vec<ProtocolRemoveBlock>),
    ClientRequestJoin(Client),
    ClientRequestLeave,
    ServerRequestKick,
    ServerResponseMetadata(ProtocolResponseMetadata),
}

pub enum ProtocolView {
    BothNothing,
    BothResponse(ResponseView),
    BothRequestPlaceBlocks(Seq<ProtocolPlaceBlock>),
    BothRequestUpdateBlocks(Seq<ProtocolUpdateBlock>),
    BothRequestRemoveBlocks(Seq<ProtocolRemoveBlock>),
    ClientRequestJoin(ClientView),
    ClientRequestLeave,
    ServerRequestKick,
    ServerResponseMetadata { ticks: u32, clients: Seq<ClientView> },
}

impl View for Protocol {
    type V = ProtocolView;

    open spec fn view(&self) -> ProtocolView {
        match self {
            Protocol::BothNothing => ProtocolView::BothNothing,
            Protocol::BothResponse(r) => ProtocolView::BothResponse(r@),
            Protocol::BothRequestPlaceBlocks(items) => ProtocolView::BothRequestPlaceBlocks(items@),
            Protocol::BothRequestUpdateBlocks(items) => ProtocolView::BothRequestUpdateBlocks(
                items@,
            ),
            Protocol::BothRequestRemoveBlocks(items) => ProtocolView::BothRequestRemoveBlocks(
                items@,
            ),
            Protocol::ClientRequestJoin(client) => ProtocolView::ClientRequestJoin(client@),
            Protocol::ClientRequestLeave => ProtocolView::ClientRequestLeave,
            Protocol::ServerRequestKick => ProtocolView::ServerRequestKick,
            Protocol::ServerResponseMetadata(data) => ProtocolView::ServerResponseMetadata {
                ticks: data.ticks,
                clients: clients_view(data.clients@),
            },
        }
    }
}

/// Where the world is saved and how often, and how long a tick lasts.
#[derive(Clone, Debug)]
pub struct WorldSettings {
    pub save_path: String,
    pub autosave_millis: u64,
    pub tick_millis: u64,
}

/// The path under which a world is saved that was started at `unix_millis`.
pub open spec fn save_path_for(unix_millis: nat) -> Seq<char> {
    SERVER_DIRECTORY@ + decimal_text(unix_millis) + ".world"@
}

impl WorldSettings {
    /// The settings of a server that was started at `unix_millis`: the world
    /// is saved every ten seconds under a name made of that time, and a tick
    /// lasts a tenth of a second.
    pub fn started_at(unix_millis: u128) -> (settings: WorldSettings)
        ensures
            settings.save_path@ == save_path_for(unix_millis as nat),
            settings.autosave_millis == 10_000,
            settings.tick_millis == 100,
    {
        let path = String::from_str(SERVER_DIRECTORY).concat(decimal(unix_millis).as_str()).concat(
            ".world",
        );
        WorldSettings { save_path: path, autosave_millis: 10_000, tick_millis: 100 }
    }

    /// Whether the world is to be saved, `elapsed_millis` after the last save.
    pub fn save_due(&self, elapsed_millis: u64) -> (due: bool)
        ensures
            due == (elapsed_millis >= self.autosave_millis),
    {
        elapsed_millis >= self.autosave_millis
    }

    /// Whether a tick is to be simulated, `elapsed_millis` after the last one.
    pub fn tick_due(&self, elapsed_millis: u64) -> (due: bool)
        ensures
            due == (elapsed_millis >= self.tick_millis),
    {
        elapsed_millis >= self.tick_millis
    }
}

/// A connection: the identifier of its peer and, once it has joined, what the
/// client told of itself.
pub type Session = (ClientID, Option<Client>);

pub type SessionView = (Seq<char>, Option<ClientView>);

/// The mathematical value of a session.
pub open spec fn session_view(session: Session) -> SessionView {
    (
        session.0@,
        match session.1 {
            Some(client) => Some(client@),
            None => None,
        },
    )
}

/// The connections of the server, in the order in which they were accepted.
pub struct Sessions {
    entries: Vec<Session>,
}

impl View for Sessions {
    type V = Seq<SessionView>;

    closed spec fn view(&self) -> Seq<SessionView> {
        Seq::new(self.entries@.len(), |i: int| session_view(self.entries@[i]))
    }
}

/// Where the session of the peer `id` stands in the list, if it is there.
pub open spec fn session_rank(sessions: Seq<SessionView>, id: Seq<char>) -> Option<int> {
    if exists|i: int| 0 <= i < sessions.len() && (#[trigger] sessions[i]).0 == id {
        Some(choose|i: int| 0 <= i < sessions.len() && (#[trigger] sessions[i]).0 == id)
    } else {
        None
    }
}

/// No two sessions have the same peer.
pub open spec fn peers_distinct(sessions: Seq<SessionView>) -> bool {
    forall|i: int, j: int|
        0 <= i < sessions.len() && 0 <= j < sessions.len() && i != j ==> (#[trigger] sessions[i]).0 != (
        #[trigger] sessions[j]).0
}

/// What the joined clients of the sessions told of themselves, in the order
/// of the sessions.
pub open spec fn joined_clients(sessions: Seq<SessionView>) -> Seq<ClientView>
    decreases sessions.len(),
{
    if sessions.len() == 0 {
        Seq::empty()
    } else {
        let rest = joined_clients(sessions.drop_last());
        match sessions.last().1 {
            Some(client) => rest.push(client),
            None => rest,
        }
    }
}

/// The peers of the joined sessions, in the order of the sessions.
pub open spec fn joined_peers(sessions: Seq<SessionView>) -> Seq<Seq<char>>
    decreases sessions.len(),
{
    if sessions.len() == 0 {
        Seq::empty()
    } else {
        let rest = joined_peers(sessions.drop_last());
        if sessions.last().1 is Some {
            rest.push(sessions.last().0)
        } else {
            rest
        }
    }
}

/// The views of a list of identifiers.
pub open spec fn peers_view(ids: Seq<ClientID>) -> Seq<Seq<char>> {
    Seq::new(ids.len(), |i: int| ids[i]@)
}

impl Sessions {
    /// No two sessions have the same peer.
    pub open spec fn wf(&self) -> bool {
        peers_distinct(self@)
    }

    /// No session.
    pub fn new() -> (sessions: Sessions)
        ensures
            sessions.wf(),
            sessions@ == Seq::<SessionView>::empty(),
    {
        let sessions = Sessions { entries: Vec::new() };
        assert(sessions@ =~= Seq::<SessionView>::empty());
        sessions
    }

    /// Where the session of the peer `id` stands in the list.
    fn find(&self, id: &ClientID) -> (rank: Option<usize>)
        requires
            self.wf(),
        ensures
            match rank {
                Some(i) => session_rank(self@, id@) == Some(i as int) && i < self@.len()
                    && self@[i as int].0 == id@,
                None => session_rank(self@, id@) is None && forall|i: int|
                    0 <= i < self@.len() ==> (#[trigger] self@[i]).0 != id@,
            },
    {
        let mut i: usize = 0;
        while i < self.entries.len()
            invariant
                i <= self.entries.len(),
                self.wf(),
                forall|k: int| 0 <= k < i ==> (#[trigger] self@[k]).0 != id@,
            decreases self.entries.len() - i,
        {
            assert(self@[i as int] == session_view(self.entries@[i as int]));
            if self.entries[i].0 == *id {
                proof {
                    let k = choose|k: int| 0 <= k < self@.len() && (#[trigger] self@[k]).0 == id@;
                    if k != i {
                        assert(self@[k].0 != self@[i as int].0);
                    }
                }
                return Some(i);
            }
            i = i + 1;
        }
        None
    }

    /// Registers a connection that was accepted. A second connection of the
    /// same peer is rejected.
    pub fn connect(&mut self, id: ClientID) -> (accepted: bool)
        requires
            old(self).wf(),
        ensures
            final(self).wf(),
            accepted == (session_rank(old(self)@, id@) is None),
            accepted ==> final(self)@ == old(self)@.push((id@, None)),
            !accepted ==> final(self)@ == old(self)@,
    {
        match self.find(&id) {
            Some(_) => false,
            None => {
                let ghost before = self@;
                let ghost name = id@;
                self.entries.push((id, None));
                assert(self@ =~= before.push((name, None)));
                true
            },
        }
    }

    /// Records what a client told of itself when it joined, over what it told
    /// before. Returns whether the peer has a session, and whether this is
    /// its first join.
    pub fn join(&mut self, id: &ClientID, client: Client) -> (joined: Option<bool>)
        requires
            old(self).wf(),
        ensures
            final(self).wf(),
            match session_rank(old(self)@, id@) {
                Some(i) => joined == Some(old(self)@[i].1 is None) && final(self)@ == old(
                    self,
                )@.update(i, (id@, Some(client@))),
                None => joined is None && final(self)@ == old(self)@,
            },
    {
        match self.find(id) {
            Some(i) => {
                let ghost before = self@;
                let ghost told = client@;
                let first = self.entries[i].1.is_none();
                let peer = self.entries[i].0.clone();
                self.entries.set(i, (peer, Some(client)));
                assert(self@ =~= before.update(i as int, (id@, Some(told))));
                Some(first)
            },
            None => None,
        }
    }

    /// Drops the session of the peer `id`.
    pub fn leave(&mut self, id: &ClientID) -> (left: bool)
        requires
            old(self).wf(),
        ensures
            final(self).wf(),
            match session_rank(old(self)@, id@) {
                Some(i) => left && final(self)@ == old(self)@.remove(i),
                None => !left && final(self)@ == old(self)@,
            },
    {
        match self.find(id) {
            Some(i) => {
                let ghost before = self@;
                let _ = self.entries.remove(i);
                assert(self@ =~= before.remove(i as int));
                true
            },
            None => false,
        }
    }

    /// Drops every session.
    pub fn clear(&mut self)
        ensures
            final(self).wf(),
            final(self)@ == Seq::<SessionView>::empty(),
    {
        self.entries.clear();
        assert(self@ =~= Seq::<SessionView>::empty());
    }

    /// What the joined clients told of themselves.
    pub fn clients(&self) -> (clients: Vec<Client>)
        ensures
            clients_view(clients@) == joined_clients(self@),
    {
        let mut clients: Vec<Client> = Vec::new();
        let mut i: usize = 0;
        assert(self@.take(0) =~= Seq::<SessionView>::empty());
        while i < self.entries.len()
            invariant
                i <= self.entries.len(),
                clients_view(clients@) == joined_clients(self@.take(i as int)),
            decreases self.entries.len() - i,
        {
            let ghost before = clients_view(clients@);
            proof {
                let next = self@.take(i + 1);
                assert(next.drop_last() =~= self@.take(i as int));
                assert(next.last() == session_view(self.entries@[i as int]));
            }
            match &self.entries[i].1 {
                Some(client) => {
                    let copy = client.clone();
                    clients.push(copy);
                    assert(clients_view(clients@) =~= before.push(client@));
                },
                None => {},
            }
            i = i + 1;
        }
        assert(self@.take(self@.len() as int) =~= self@);
        clients
    }

    /// The peers of the joined sessions.
    pub fn joined_ids(&self) -> (ids: Vec<ClientID>)
        ensures
            peers_view(ids@) == joined_peers(self@),
    {
        let mut ids: Vec<ClientID> = Vec::new();
        let mut i: usize = 0;
        assert(self@.take(0) =~= Seq::<SessionView>::empty());
        while i < self.entries.len()
            invariant
                i <= self.entries.len(),
                peers_view(ids@) == joined_peers(self@.take(i as int)),
            decreases self.entries.len() - i,
        {
            let ghost before = peers_view(ids@);
            proof {
                let next = self@.take(i + 1);
                assert(next.drop_last() =~= self@.take(i as int));
                assert(next.last() == session_view(self.entries@[i as int]));
            }
            if self.entries[i].1.is_some() {
                let peer = self.entries[i].0.clone();
                ids.push(peer);
                assert(peers_view(ids@) =~= before.push(self.entries@[i as int].0@));
            }
            i = i + 1;
        }
        assert(self@.take(self@.len() as int) =~= self@);
        ids
    }

    /// The peers of all sessions.
    pub fn ids(&self) -> (ids: Vec<ClientID>)
        ensures
            ids@.len() == self@.len(),
            forall|i: int| 0 <= i < ids@.len() ==> (#[trigger] ids@[i])@ == self@[i].0,
    {
        let mut ids: Vec<ClientID> = Vec::new();
        let mut i: usize = 0;
        while i < self.entries.len()
            invariant
                i <= self.entries.len(),
                ids@.len() == i,
                forall|k: int| 0 <= k < i ==> (#[trigger] ids@[k])@ == self@[k].0,
            decreases self.entries.len() - i,
        {
            let peer = self.entries[i].0.clone();
            ids.push(peer);
            i = i + 1;
        }
        ids
    }
}

} // verus!
