//! Whose turn it is when an engine waits for something to happen.
use vstd::prelude::*;

verus! {

/// Where events come from.
#[derive(Clone, Copy, Debug, PartialEq, Eq, Structural)]
pub enum Source {
    /// The node, when it shuts down.
    Shutdown,
    /// The network.
    Network,
    /// Digests, deadlines and recovered certificates.
    Maintenance,
}

/// The order in which sources are asked. The first one that is ready is served, so network and
/// maintenance take turns at going first, to prevent starvation.
#[derive(Clone, Copy, Debug, PartialEq, Eq, Structural)]
pub struct Turns {
    network_first: bool,
}

impl Turns {
    /// Whether the network goes before maintenance.
    pub closed spec fn favors_network(self) -> bool {
        self.network_first
    }

    /// The order in which sources are asked.
    pub open spec fn sources(self) -> Seq<Source> {
        if self.favors_network() {
            seq![Source::Shutdown, Source::Network, Source::Maintenance]
        } else {
            seq![Source::Shutdown, Source::Maintenance, Source::Network]
        }
    }

    /// The source that is served where those in `ready` are ready.
    pub open spec fn served(self, ready: Set<Source>) -> Option<Source> {
        let sources = self.sources();
        if ready.contains(sources[0]) {
            Some(sources[0])
        } else if ready.contains(sources[1]) {
            Some(sources[1])
        } else if ready.contains(sources[2]) {
            Some(sources[2])
        } else {
            None
        }
    }

    /// The network goes first.
    pub fn new() -> (turns: Turns)
        ensures
            turns.favors_network(),
    {
        Turns { network_first: true }
    }

    /// Whether the network goes before maintenance.
    pub fn network_first(&self) -> (first: bool)
        ensures
            first == self.favors_network(),
    {
        self.network_first
    }

    /// The order in which sources are asked.
    pub fn order(&self) -> (order: [Source; 3])
        ensures
            order@ == self.sources(),
    {
        let order = if self.network_first {
            [Source::Shutdown, Source::Network, Source::Maintenance]
        } else {
            [Source::Shutdown, Source::Maintenance, Source::Network]
        };
        assert(order@ =~= self.sources());
        order
    }

    /// The other one's turn.
    pub fn pass(&mut self)
        ensures
            final(self).favors_network() == !old(self).favors_network(),
    {
        self.network_first = !self.network_first;
    }
}

/// Neither the network nor maintenance starves: a source that is ready twice in a row is served
/// once, unless the node shuts down.
pub proof fn law_no_starvation(
    turns: Turns,
    next: Turns,
    ready: Set<Source>,
    later: Set<Source>,
    source: Source,
)
    requires
        next.favors_network() == !turns.favors_network(),
        ready.contains(source),
        later.contains(source),
    ensures
        turns.served(ready) == Some(source) || next.served(later) == Some(source)
            || turns.served(ready) == Some(Source::Shutdown) || next.served(later) == Some(
            Source::Shutdown,
        ),
{
}

/// Each source is asked once. The node's shutdown is asked for first and always wins, and the network
/// comes before maintenance just where that is its turn; a source that is ready is served if none
/// before it is.
pub proof fn law_shutdown_goes_first(turns: Turns, ready: Set<Source>)
    ensures
        turns.sources().len() == 3,
        turns.sources()[0] == Source::Shutdown,
        turns.sources()[if turns.favors_network() {
            1int
        } else {
            2
        }] == Source::Network,
        turns.sources()[if turns.favors_network() {
            2int
        } else {
            1
        }] == Source::Maintenance,
        turns.served(ready) == Some(Source::Shutdown) <==> ready.contains(Source::Shutdown),
        turns.served(ready) == Some(Source::Network) <==> ready.contains(Source::Network)
            && !ready.contains(Source::Shutdown) && (turns.favors_network() || !ready.contains(
            Source::Maintenance,
        )),
        turns.served(ready) == Some(Source::Maintenance) <==> ready.contains(Source::Maintenance)
            && !ready.contains(Source::Shutdown) && (!turns.favors_network() || !ready.contains(
            Source::Network,
        )),
{
}

} // verus!
