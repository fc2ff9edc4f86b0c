//! The event hub: owns the roster of connected peers, the world, the
//! nickname registry and the free-ID pool, consumes one inbound event at
//! a time, and decides exactly which records go out to which peers. The
//! sockets that carry the records live outside the library.

use vstd::prelude::*;
use crate::codec::{
    BlockEvent, ChunkRequestEvent, LightEvent, PositionEvent, PositionEventView, SignEvent,
    TalkEvent,
};
use crate::message::{wire_of, format_message, Message, MessageView};
use crate::nick::NickManager;
use crate::num::dec_digits;
use crate::world::{
    assoc_get, chunked, containing_chunk, edit_chunks, edit_cmds, edit_value, is_edit_chunk,
    local_key, spec_chunked, unique_keys, Block, Light, Sign, World,
};

verus! {

/// One outbound record, addressed to one peer.
pub struct Outbound {
    pub dest: u32,
    pub msg: String,
}

/// Spec-level image of an outbound record.
pub struct OutboundView {
    pub dest: u32,
    pub msg: Seq<char>,
}

impl View for Outbound {
    type V = OutboundView;

    open spec fn view(&self) -> OutboundView {
        OutboundView { dest: self.dest, msg: self.msg@ }
    }
}

/// The views of a vector of outbound records.
pub open spec fn out_views(v: Seq<Outbound>) -> Seq<OutboundView> {
    v.map_values(|o: Outbound| o@)
}

/// The hub's record of one connected peer: its nickname, source address
/// and last reported transform.
pub struct Peer {
    pub nick: String,
    pub addr: String,
    pub pos: PositionEvent,
}

/// Spec-level image of a peer record.
pub struct PeerView {
    pub nick: Seq<char>,
    pub addr: Seq<char>,
    pub pos: PositionEventView,
}

impl View for Peer {
    type V = PeerView;

    open spec fn view(&self) -> PeerView {
        PeerView { nick: self.nick@, addr: self.addr@, pos: self.pos@ }
    }
}

/// The spawn transform every new peer starts at.
pub open spec fn spawn_pos() -> PositionEventView {
    PositionEventView {
        x: seq!['0'],
        y: seq!['0'],
        z: seq!['0'],
        rx: seq!['0'],
        ry: seq!['0'],
    }
}

/// One wire record for every peer, in roster order.
pub open spec fn broadcast_to_all(roster: Seq<(u32, PeerView)>, m: MessageView) -> Seq<
    OutboundView,
>
    decreases roster.len(),
{
    if roster.len() == 0 {
        Seq::<OutboundView>::empty()
    } else {
        broadcast_to_all(roster.drop_last(), m) + seq![
            (OutboundView { dest: roster.last().0, msg: wire_of(m) }),
        ]
    }
}

/// A position record for every peer but the mover, in roster order.
pub open spec fn position_fanout(
    roster: Seq<(u32, PeerView)>,
    id: u32,
    pv: PositionEventView,
) -> Seq<OutboundView>
    decreases roster.len(),
{
    if roster.len() == 0 {
        Seq::<OutboundView>::empty()
    } else {
        position_fanout(roster.drop_last(), id, pv) + if roster.last().0 == id {
            Seq::<OutboundView>::empty()
        } else {
            seq![
                (OutboundView {
                    dest: roster.last().0,
                    msg: wire_of((MessageView::PositionOf { id, pos: pv })),
                }),
            ]
        }
    }
}

/// Two wire records for every peer, in roster order.
pub open spec fn pair_fanout(
    roster: Seq<(u32, PeerView)>,
    m1: MessageView,
    m2: MessageView,
) -> Seq<OutboundView>
    decreases roster.len(),
{
    if roster.len() == 0 {
        Seq::<OutboundView>::empty()
    } else {
        pair_fanout(roster.drop_last(), m1, m2) + seq![
            (OutboundView { dest: roster.last().0, msg: wire_of(m1) }),
            (OutboundView { dest: roster.last().0, msg: wire_of(m2) }),
        ]
    }
}

/// The block-update and redraw records a block edit broadcasts for a run
/// of written chunks, all carrying the kind `wv`.
pub open spec fn edit_fanout(
    roster: Seq<(u32, PeerView)>,
    chunks: Seq<(i32, i32)>,
    x: i32,
    y: i32,
    z: i32,
    wv: i8,
) -> Seq<OutboundView>
    decreases chunks.len(),
{
    if chunks.len() == 0 {
        Seq::<OutboundView>::empty()
    } else {
        edit_fanout(roster, chunks.drop_last(), x, y, z, wv) + pair_fanout(
            roster,
            (MessageView::BlockAt { p: chunks.last().0, q: chunks.last().1, x, y, z, w: wv }),
            (MessageView::RedrawChunk { p: chunks.last().0, q: chunks.last().1 }),
        )
    }
}

/// The records sent during a handshake for each already connected peer:
/// the newcomer learns each existing peer's position and nickname, and
/// each existing peer learns the newcomer's spawn position and nickname.
pub open spec fn accept_peer_msgs(
    roster: Seq<(u32, PeerView)>,
    id: u32,
    nickv: Seq<char>,
) -> Seq<OutboundView>
    decreases roster.len(),
{
    if roster.len() == 0 {
        Seq::<OutboundView>::empty()
    } else {
        accept_peer_msgs(roster.drop_last(), id, nickv) + seq![
            (OutboundView {
                dest: id,
                msg: wire_of(
                    (MessageView::PositionOf { id: roster.last().0, pos: roster.last().1.pos }),
                ),
            }),
            (OutboundView {
                dest: id,
                msg: wire_of(
                    (MessageView::NickOf { id: roster.last().0, name: roster.last().1.nick }),
                ),
            }),
            (OutboundView {
                dest: roster.last().0,
                msg: wire_of((MessageView::PositionOf { id, pos: spawn_pos() })),
            }),
            (OutboundView {
                dest: roster.last().0,
                msg: wire_of((MessageView::NickOf { id, name: nickv })),
            }),
        ]
    }
}

/// The records sent to each survivor when a peer leaves: the departure,
/// and the chat notice when the leaver was known.
pub open spec fn disconnect_fanout(
    roster: Seq<(u32, PeerView)>,
    id: u32,
    notice: Option<Seq<char>>,
) -> Seq<OutboundView>
    decreases roster.len(),
{
    if roster.len() == 0 {
        Seq::<OutboundView>::empty()
    } else {
        disconnect_fanout(roster.drop_last(), id, notice) + seq![
            (OutboundView { dest: roster.last().0, msg: wire_of((MessageView::Gone { id })) }),
        ] + match notice {
            Some(text) => seq![
                (OutboundView {
                    dest: roster.last().0,
                    msg: wire_of((MessageView::TalkMsg { text })),
                }),
            ],
            None => Seq::<OutboundView>::empty(),
        }
    }
}

/// The block records streamed for a chunk request: each stored entry
/// converted back to global coordinates.
pub open spec fn chunk_blocks_msgs(
    id: u32,
    pq: (i32, i32),
    blocks: Seq<((u8, u8, u8), i8)>,
) -> Seq<OutboundView>
    decreases blocks.len(),
{
    if blocks.len() == 0 {
        Seq::<OutboundView>::empty()
    } else {
        chunk_blocks_msgs(id, pq, blocks.drop_last()) + seq![
            (OutboundView {
                dest: id,
                msg: wire_of(
                    (MessageView::BlockAt {
                        p: pq.0,
                        q: pq.1,
                        x: (pq.0 * 32 - 1 + blocks.last().0.0) as i32,
                        y: blocks.last().0.1 as i32,
                        z: (pq.1 * 32 - 1 + blocks.last().0.2) as i32,
                        w: blocks.last().1,
                    }),
                ),
            }),
        ]
    }
}

/// The sign records streamed for a chunk request; the chunk key of each
/// record is recomputed from the sign's own coordinates.
pub open spec fn chunk_signs_msgs(id: u32, signs: Seq<((i32, i32, i32, u8), Seq<char>)>) -> Seq<
    OutboundView,
>
    decreases signs.len(),
{
    if signs.len() == 0 {
        Seq::<OutboundView>::empty()
    } else {
        chunk_signs_msgs(id, signs.drop_last()) + seq![
            (OutboundView {
                dest: id,
                msg: wire_of(
                    (MessageView::SignAt {
                        p: spec_chunked(signs.last().0.0 as int) as i32,
                        q: spec_chunked(signs.last().0.2 as int) as i32,
                        x: signs.last().0.0,
                        y: signs.last().0.1,
                        z: signs.last().0.2,
                        face: signs.last().0.3,
                        text: signs.last().1,
                    }),
                ),
            }),
        ]
    }
}

/// The core server state: the roster of connected peers, the world, the
/// nickname registry, and the pool of freed peer IDs.
pub struct Hub {
    roster: Vec<(u32, Peer)>,
    free_ids: Vec<u32>,
    next_fresh: u32,
    world: World,
    nicks: NickManager,
}

impl Hub {
    /// The roster as plain values, in insertion order.
    pub closed spec fn roster_view(&self) -> Seq<(u32, PeerView)> {
        self.roster@.map_values(|e: (u32, Peer)| (e.0, e.1@))
    }

    /// The freed IDs awaiting reuse, oldest first.
    pub closed spec fn free_view(&self) -> Seq<u32> {
        self.free_ids@
    }

    /// The next never-used ID.
    pub closed spec fn fresh_id(&self) -> u32 {
        self.next_fresh
    }

    /// The world state.
    pub closed spec fn sworld(&self) -> World {
        self.world
    }

    /// The nickname registry state.
    pub closed spec fn registry(&self) -> NickManager {
        self.nicks
    }

    /// At most one peer per ID; freed IDs are unique, distinct from
    /// every rostered ID, and below the fresh-ID watermark, as is every
    /// rostered ID; the world and the registry are well formed.
    pub closed spec fn wf(&self) -> bool {
        &&& unique_keys(self.roster_view())
        &&& (forall|i: int, j: int|
            0 <= i < j < self.free_view().len() ==> self.free_view()[i] != self.free_view()[j])
        &&& (forall|i: int, j: int|
            0 <= i < self.roster_view().len() && 0 <= j < self.free_view().len()
                ==> (#[trigger] self.roster_view()[i]).0 != #[trigger] self.free_view()[j])
        &&& (forall|i: int|
            0 <= i < self.roster_view().len() ==> (#[trigger] self.roster_view()[i]).0
                < self.fresh_id())
        &&& (forall|j: int|
            0 <= j < self.free_view().len() ==> #[trigger] self.free_view()[j] < self.fresh_id())
        &&& self.world.wf()
        &&& self.nicks.wf()
    }

    /// The peer rostered under an ID, if any.
    pub open spec fn peer_of(&self, id: u32) -> Option<PeerView> {
        assoc_get(self.roster_view(), id)
    }

    /// Create a hub with an empty roster, an empty world and an empty
    /// registry; the first peer will receive ID 1.
    pub fn new() -> (h: Hub)
        ensures
            h.wf(),
            h.roster_view() == Seq::<(u32, PeerView)>::empty(),
            h.free_view() == Seq::<u32>::empty(),
            h.fresh_id() == 1,
            forall|pq: (i32, i32)| !h.sworld().has_chunk(pq),
            forall|pq: (i32, i32), l: (u8, u8, u8)| h.sworld().block_at(pq, l) is None,
            forall|pq: (i32, i32), k: (i32, i32, i32, u8)| h.sworld().sign_at(pq, k) is None,
            forall|pq: (i32, i32), l: (u8, u8, u8)| h.sworld().light_at(pq, l) is None,
            h.sworld().pending_list() == Seq::<crate::world::StoreCommandView>::empty(),
            forall|ip: Seq<char>| h.registry().nick_of(ip) is None,
    {
        let h = Hub {
            roster: Vec::new(),
            free_ids: Vec::new(),
            next_fresh: 1,
            world: World::new(),
            nicks: NickManager::new(),
        };
        proof {
            assert(h.roster_view() =~= Seq::<(u32, PeerView)>::empty());
        }
        h
    }
    /// Pick the ID for a newly accepted connection: the oldest freed ID
    /// when one exists, else a fresh one.
    fn allocate_id(&mut self) -> (id: u32)
        requires
            old(self).wf(),
            old(self).free_view().len() > 0 || old(self).fresh_id() < u32::MAX,
        ensures
            final(self).wf(),
            final(self).roster_view() == old(self).roster_view(),
            final(self).sworld() == old(self).sworld(),
            final(self).registry() == old(self).registry(),
            if old(self).free_view().len() > 0 {
                &&& id == old(self).free_view()[0]
                &&& final(self).free_view() == old(self).free_view().skip(1)
                &&& final(self).fresh_id() == old(self).fresh_id()
            } else {
                &&& id == old(self).fresh_id()
                &&& final(self).free_view() == old(self).free_view()
                &&& final(self).fresh_id() == old(self).fresh_id() + 1
            },
            forall|i: int|
                0 <= i < final(self).roster_view().len() ==> (
                #[trigger] final(self).roster_view()[i]).0 != id,
            id < final(self).fresh_id(),
    {
        if self.free_ids.len() > 0 {
            let id = self.free_ids.remove(0);
            proof {
                assert(self.free_ids@ =~= old(self).free_view().skip(1));
                assert(forall|j: int|
                    0 <= j < self.free_ids@.len() ==> self.free_ids@[j] == old(self).free_view()[j
                        + 1]);
            }
            id
        } else {
            let id = self.next_fresh;
            self.next_fresh = self.next_fresh + 1;
            id
        }
    }

    /// Accept one peer whose handshake succeeded: assign its ID, settle
    /// its nickname from the registry (or `guest` plus the ID), insert it
    /// into the roster at spawn, and produce the initial burst of
    /// records: the newcomer's ID and spawn, the in-game time, every
    /// existing peer's position and nickname to the newcomer, the
    /// newcomer's spawn position and nickname to every existing peer,
    /// and finally the newcomer's own nickname to itself.
    pub fn accept_peer(&mut self, addr: &str, time_secs: u64) -> (r: AcceptResult)
        requires
            old(self).wf(),
            old(self).free_view().len() > 0 || old(self).fresh_id() < u32::MAX,
        ensures
            final(self).wf(),
            if old(self).free_view().len() > 0 {
                &&& r.id == old(self).free_view()[0]
                &&& final(self).free_view() == old(self).free_view().skip(1)
                &&& final(self).fresh_id() == old(self).fresh_id()
            } else {
                &&& r.id == old(self).fresh_id()
                &&& final(self).free_view() == old(self).free_view()
                &&& final(self).fresh_id() == old(self).fresh_id() + 1
            },
            forall|i: int|
                0 <= i < old(self).roster_view().len() ==> (#[trigger] old(self).roster_view()[i]).0
                    != r.id,
            r.nick@ == match old(self).registry().nick_of(addr@) {
                Some(n) => n,
                None => seq!['g', 'u', 'e', 's', 't'] + dec_digits(r.id as nat),
            },
            final(self).roster_view() == old(self).roster_view().push(
                (r.id, (PeerView { nick: r.nick@, addr: addr@, pos: spawn_pos() })),
            ),
            out_views(r.outbound@) == seq![
                (OutboundView {
                    dest: r.id,
                    msg: wire_of((MessageView::You { id: r.id, pos: spawn_pos() })),
                }),
                (OutboundView {
                    dest: r.id,
                    msg: wire_of(
                        (MessageView::TimeMsg { time: time_secs, day_length: crate::DAY_LENGTH }),
                    ),
                }),
            ] + accept_peer_msgs(old(self).roster_view(), r.id, r.nick@) + seq![
                (OutboundView {
                    dest: r.id,
                    msg: wire_of((MessageView::NickOf { id: r.id, name: r.nick@ })),
                }),
            ],
            final(self).sworld() == old(self).sworld(),
            final(self).registry() == old(self).registry(),
    {
        let id = self.allocate_id();
        let sp = PositionEvent::spawn();
        proof {
            assert(sp@ == spawn_pos());
        }
        let nick: String = match self.nicks.get(addr) {
            Some(n) => n,
            None => {
                let mut s = "guest".to_owned();
                s.append(crate::num::fmt_u32(id).as_str());
                proof {
                    reveal_strlit("guest");
                    assert("guest"@ =~= seq!['g', 'u', 'e', 's', 't']);
                }
                s
            },
        };
        let mut outbound: Vec<Outbound> = Vec::new();
        outbound.push(
            Outbound { dest: id, msg: format_message(&Message::You { id, pos: sp.duplicate() }) },
        );
        outbound.push(
            Outbound {
                dest: id,
                msg: format_message(
                    &Message::TimeMsg { time: time_secs, day_length: crate::DAY_LENGTH },
                ),
            },
        );
        let ghost prefix = seq![
            (OutboundView { dest: id, msg: wire_of((MessageView::You { id, pos: spawn_pos() })) }),
            (OutboundView {
                dest: id,
                msg: wire_of(
                    (MessageView::TimeMsg { time: time_secs, day_length: crate::DAY_LENGTH }),
                ),
            }),
        ];
        let ghost rv = self.roster_view();
        proof {
            assert(out_views(outbound@) =~= prefix);
            assert(accept_peer_msgs(rv.take(0), id, nick@) == Seq::<OutboundView>::empty());
            assert(rv.take(0) =~= Seq::<(u32, PeerView)>::empty());
        }
        let n = self.roster.len();
        let mut i: usize = 0;
        while i < n
            invariant
                0 <= i <= n,
                n == self.roster@.len(),
                rv == self.roster_view(),
                sp@ == spawn_pos(),
                out_views(outbound@) == prefix + accept_peer_msgs(rv.take(i as int), id, nick@),
            decreases n - i,
        {
            let ghost before = out_views(outbound@);
            let other_id = self.roster[i].0;
            let other_pos = self.roster[i].1.pos.duplicate();
            let other_nick = self.roster[i].1.nick.clone();
            proof {
                assert(rv[i as int] == (self.roster@[i as int].0, self.roster@[i as int].1@));
                assert(other_pos@ == rv[i as int].1.pos);
                assert(other_nick@ == rv[i as int].1.nick);
            }
            outbound.push(
                Outbound {
                    dest: id,
                    msg: format_message(&Message::PositionOf { id: other_id, pos: other_pos }),
                },
            );
            proof {
                assert(out_views(outbound@) =~= before + seq![
                    (OutboundView {
                        dest: id,
                        msg: wire_of(
                            (MessageView::PositionOf { id: other_id, pos: rv[i as int].1.pos }),
                        ),
                    }),
                ]);
            }
            let ghost b1 = out_views(outbound@);
            outbound.push(
                Outbound {
                    dest: id,
                    msg: format_message(&Message::NickOf { id: other_id, name: other_nick }),
                },
            );
            proof {
                assert(out_views(outbound@) =~= b1 + seq![
                    (OutboundView {
                        dest: id,
                        msg: wire_of(
                            (MessageView::NickOf { id: other_id, name: rv[i as int].1.nick }),
                        ),
                    }),
                ]);
            }
            let ghost b2 = out_views(outbound@);
            outbound.push(
                Outbound {
                    dest: other_id,
                    msg: format_message(&Message::PositionOf { id, pos: sp.duplicate() }),
                },
            );
            proof {
                assert(out_views(outbound@) =~= b2 + seq![
                    (OutboundView {
                        dest: other_id,
                        msg: wire_of((MessageView::PositionOf { id, pos: spawn_pos() })),
                    }),
                ]);
            }
            let ghost b3 = out_views(outbound@);
            outbound.push(
                Outbound {
                    dest: other_id,
                    msg: format_message(&Message::NickOf { id, name: nick.clone() }),
                },
            );
            proof {
                assert(out_views(outbound@) =~= b3 + seq![
                    (OutboundView {
                        dest: other_id,
                        msg: wire_of((MessageView::NickOf { id, name: nick@ })),
                    }),
                ]);
                assert(rv.take(i as int + 1).drop_last() =~= rv.take(i as int));
                assert(rv.take(i as int + 1).last() == rv[i as int]);
                assert(out_views(outbound@) =~= prefix + accept_peer_msgs(
                    rv.take(i as int + 1),
                    id,
                    nick@,
                ));
            }
            i += 1;
        }
        proof {
            assert(rv.take(n as int) =~= rv);
        }
        let ghost before_self = out_views(outbound@);
        outbound.push(
            Outbound { dest: id, msg: format_message(&Message::NickOf { id, name: nick.clone() }) },
        );
        proof {
            assert(out_views(outbound@) =~= before_self + seq![
                (OutboundView {
                    dest: id,
                    msg: wire_of((MessageView::NickOf { id, name: nick@ })),
                }),
            ]);
        }
        let ghost old_rv = self.roster_view();
        self.roster.push(
            (id, Peer { nick: nick.clone(), addr: addr.to_owned(), pos: sp }),
        );
        proof {
            assert(self.roster_view() =~= old_rv.push(
                (id, (PeerView { nick: nick@, addr: addr@, pos: spawn_pos() })),
            ));
            assert(self.wf()) by {
                assert(forall|a: int|
                    0 <= a < old_rv.len() ==> self.roster_view()[a] == old_rv[a]);
                assert(self.roster_view()[old_rv.len() as int].0 == id);
            }
        }
        AcceptResult { id, nick, outbound }
    }
    /// Find the roster index of a peer.
    fn find_peer(&self, id: u32) -> (r: Option<usize>)
        ensures
            match r {
                Some(i) => i < self.roster_view().len() && self.roster_view()[i as int].0 == id,
                None => forall|i: int|
                    0 <= i < self.roster_view().len() ==> (#[trigger] self.roster_view()[i]).0
                        != id,
            },
    {
        let mut i: usize = 0;
        while i < self.roster.len()
            invariant
                0 <= i <= self.roster@.len(),
                forall|j: int| 0 <= j < i ==> (#[trigger] self.roster_view()[j]).0 != id,
            decreases self.roster@.len() - i,
        {
            proof {
                assert(self.roster_view()[i as int].0 == self.roster@[i as int].0);
            }
            if self.roster[i].0 == id {
                return Some(i);
            }
            i += 1;
        }
        None
    }

    /// Consume one position event: every other peer is told the mover's
    /// new transform, and the mover's cached transform is replaced by it.
    pub fn handle_position_event(&mut self, id: u32, ev: &PositionEvent) -> (out: Vec<Outbound>)
        requires
            old(self).wf(),
        ensures
            final(self).wf(),
            final(self).roster_view().len() == old(self).roster_view().len(),
            forall|a: int|
                0 <= a < final(self).roster_view().len() ==> #[trigger] final(self).roster_view()[a]
                    == if old(self).roster_view()[a].0 == id {
                    (
                        id,
                        (PeerView {
                            nick: old(self).roster_view()[a].1.nick,
                            addr: old(self).roster_view()[a].1.addr,
                            pos: ev@,
                        }),
                    )
                } else {
                    old(self).roster_view()[a]
                },
            out_views(out@) == position_fanout(old(self).roster_view(), id, ev@),
            final(self).free_view() == old(self).free_view(),
            final(self).fresh_id() == old(self).fresh_id(),
            final(self).sworld() == old(self).sworld(),
            final(self).registry() == old(self).registry(),
    {
        let ghost rv = self.roster_view();
        let mut out: Vec<Outbound> = Vec::new();
        let n = self.roster.len();
        let mut i: usize = 0;
        proof {
            assert(rv.take(0) =~= Seq::<(u32, PeerView)>::empty());
            assert(out_views(out@) =~= position_fanout(rv.take(0), id, ev@));
        }
        while i < n
            invariant
                0 <= i <= n,
                n == self.roster@.len(),
                rv == self.roster_view(),
                out_views(out@) == position_fanout(rv.take(i as int), id, ev@),
            decreases n - i,
        {
            let ghost before = out_views(out@);
            proof {
                assert(rv[i as int].0 == self.roster@[i as int].0);
                assert(rv.take(i as int + 1).drop_last() =~= rv.take(i as int));
                assert(rv.take(i as int + 1).last() == rv[i as int]);
            }
            let other_id = self.roster[i].0;
            if other_id != id {
                out.push(
                    Outbound {
                        dest: other_id,
                        msg: format_message(&Message::PositionOf { id, pos: ev.duplicate() }),
                    },
                );
                proof {
                    assert(out_views(out@) =~= before + seq![
                        (OutboundView {
                            dest: other_id,
                            msg: wire_of((MessageView::PositionOf { id, pos: ev@ })),
                        }),
                    ]);
                }
            }
            proof {
                assert(out_views(out@) =~= position_fanout(rv.take(i as int + 1), id, ev@));
            }
            i += 1;
        }
        proof {
            assert(rv.take(n as int) =~= rv);
        }
        match self.find_peer(id) {
            Some(i) => {
                let ghost pres = self.roster@;
                let mut entry = self.roster.remove(i);
                entry.1.pos = ev.duplicate();
                self.roster.insert(i, entry);
                proof {
                    assert(self.roster@ =~= pres.update(i as int, self.roster@[i as int]));
                    assert(self.roster_view()[i as int].0 == id);
                    assert forall|a: int|
                        0 <= a < self.roster_view().len() implies #[trigger] self.roster_view()[a]
                        == if rv[a].0 == id {
                        (
                            id,
                            (PeerView { nick: rv[a].1.nick, addr: rv[a].1.addr, pos: ev@ }),
                        )
                    } else {
                        rv[a]
                    } by {
                        if a != i as int {
                            assert(self.roster@[a] == pres[a]);
                            assert(rv[a].0 != id || a == i as int) by {
                                if rv[a].0 == id {
                                    assert(rv[a].0 == rv[i as int].0);
                                }
                            }
                        }
                    }
                    assert(self.wf()) by {
                        assert forall|a: int, b: int|
                            0 <= a < b < self.roster_view().len() implies (
                        #[trigger] self.roster_view()[a]).0 != (#[trigger] self.roster_view()[b]).0
                            by {
                            assert(self.roster_view()[a].0 == rv[a].0);
                            assert(self.roster_view()[b].0 == rv[b].0);
                        }
                        assert forall|a: int, b: int|
                            0 <= a < self.roster_view().len() && 0 <= b < self.free_view().len()
                            implies (#[trigger] self.roster_view()[a]).0 != #[trigger] self
                            .free_view()[b] by {
                            assert(self.roster_view()[a].0 == rv[a].0);
                            assert(old(self).roster_view()[a].0 != old(self).free_view()[b]);
                        }
                        assert forall|a: int|
                            0 <= a < self.roster_view().len() implies (
                        #[trigger] self.roster_view()[a]).0 < self.fresh_id() by {
                            assert(self.roster_view()[a].0 == rv[a].0);
                            assert(old(self).roster_view()[a].0 < old(self).fresh_id());
                        }
                        assert forall|a: int, b: int|
                            0 <= a < b < self.free_view().len() implies self.free_view()[a]
                            != self.free_view()[b] by {
                            assert(old(self).free_view()[a] != old(self).free_view()[b]);
                        }
                        assert forall|b: int|
                            0 <= b < self.free_view().len() implies #[trigger] self.free_view()[b]
                            < self.fresh_id() by {
                            assert(old(self).free_view()[b] < old(self).fresh_id());
                        }
                    }
                }
            },
            None => {
                proof {
                    assert forall|a: int|
                        0 <= a < self.roster_view().len() implies #[trigger] self.roster_view()[a]
                        == if rv[a].0 == id {
                        (
                            id,
                            (PeerView { nick: rv[a].1.nick, addr: rv[a].1.addr, pos: ev@ }),
                        )
                    } else {
                        rv[a]
                    } by {}
                }
            },
        }
        out
    }

    /// Consume one plain chat event from a rostered peer: the text,
    /// prefixed by the speaker's nickname, goes to every peer including
    /// the speaker.
    pub fn handle_talk_event(&mut self, id: u32, ev: &TalkEvent) -> (out: Vec<Outbound>)
        requires
            old(self).wf(),
            old(self).peer_of(id) is Some,
        ensures
            *final(self) == *old(self),
            out_views(out@) == broadcast_to_all(
                old(self).roster_view(),
                (MessageView::TalkMsg {
                    text: old(self).peer_of(id).unwrap().nick + seq!['>', ' '] + ev.text@,
                }),
            ),
    {
        let i = match self.find_peer(id) {
            Some(i) => i,
            None => {
                proof {
                    crate::world::lemma_assoc_get_absent(self.roster_view(), id);
                }
                // Unreachable: the peer is rostered by precondition.
                loop
                    invariant
                        false,
                    decreases 0int,
                {
                }
            },
        };
        proof {
            crate::world::lemma_assoc_get_at(self.roster_view(), i as int);
        }
        let mut text = self.roster[i].1.nick.clone();
        text.append("> ");
        text.append(ev.text.as_str());
        proof {
            reveal_strlit("> ");
            assert("> "@ =~= seq!['>', ' ']);
            assert(text@ =~= self.peer_of(id).unwrap().nick + seq!['>', ' '] + ev.text@);
        }
        self.broadcast_text(text)
    }

    /// Send one record to every peer, in roster order.
    fn broadcast_wire(&self, m: &Message) -> (out: Vec<Outbound>)
        ensures
            out_views(out@) == broadcast_to_all(self.roster_view(), m@),
    {
        let ghost rv = self.roster_view();
        let wiremsg = format_message(m);
        let mut out: Vec<Outbound> = Vec::new();
        let n = self.roster.len();
        let mut i: usize = 0;
        proof {
            assert(rv.take(0) =~= Seq::<(u32, PeerView)>::empty());
            assert(out_views(out@) =~= broadcast_to_all(rv.take(0), m@));
        }
        while i < n
            invariant
                0 <= i <= n,
                n == self.roster@.len(),
                rv == self.roster_view(),
                wiremsg@ == wire_of(m@),
                out_views(out@) == broadcast_to_all(rv.take(i as int), m@),
            decreases n - i,
        {
            let ghost before = out_views(out@);
            proof {
                assert(rv[i as int].0 == self.roster@[i as int].0);
                assert(rv.take(i as int + 1).drop_last() =~= rv.take(i as int));
                assert(rv.take(i as int + 1).last() == rv[i as int]);
            }
            let dest = self.roster[i].0;
            out.push(Outbound { dest, msg: wiremsg.clone() });
            proof {
                assert(out_views(out@) =~= before + seq![
                    (OutboundView { dest, msg: wire_of(m@) }),
                ]);
                assert(out_views(out@) =~= broadcast_to_all(rv.take(i as int + 1), m@));
            }
            i += 1;
        }
        proof {
            assert(rv.take(n as int) =~= rv);
        }
        out
    }

    /// Send one chat record carrying `text` to every peer, in roster
    /// order.
    fn broadcast_text(&self, text: String) -> (out: Vec<Outbound>)
        ensures
            out_views(out@) == broadcast_to_all(
                self.roster_view(),
                (MessageView::TalkMsg { text: text@ }),
            ),
    {
        self.broadcast_wire(&Message::TalkMsg { text })
    }

    /// Send two records to every peer, in roster order.
    fn pair_broadcast(&self, m1: &Message, m2: &Message) -> (out: Vec<Outbound>)
        ensures
            out_views(out@) == pair_fanout(self.roster_view(), m1@, m2@),
    {
        let ghost rv = self.roster_view();
        let w1 = format_message(m1);
        let w2 = format_message(m2);
        let mut out: Vec<Outbound> = Vec::new();
        let n = self.roster.len();
        let mut i: usize = 0;
        proof {
            assert(rv.take(0) =~= Seq::<(u32, PeerView)>::empty());
            assert(out_views(out@) =~= pair_fanout(rv.take(0), m1@, m2@));
        }
        while i < n
            invariant
                0 <= i <= n,
                n == self.roster@.len(),
                rv == self.roster_view(),
                w1@ == wire_of(m1@),
                w2@ == wire_of(m2@),
                out_views(out@) == pair_fanout(rv.take(i as int), m1@, m2@),
            decreases n - i,
        {
            let ghost before = out_views(out@);
            proof {
                assert(rv[i as int].0 == self.roster@[i as int].0);
                assert(rv.take(i as int + 1).drop_last() =~= rv.take(i as int));
                assert(rv.take(i as int + 1).last() == rv[i as int]);
            }
            let dest = self.roster[i].0;
            out.push(Outbound { dest, msg: w1.clone() });
            out.push(Outbound { dest, msg: w2.clone() });
            proof {
                assert(out_views(out@) =~= before + seq![
                    (OutboundView { dest, msg: wire_of(m1@) }),
                    (OutboundView { dest, msg: wire_of(m2@) }),
                ]);
                assert(out_views(out@) =~= pair_fanout(rv.take(i as int + 1), m1@, m2@));
            }
            i += 1;
        }
        proof {
            assert(rv.take(n as int) =~= rv);
        }
        out
    }

    /// Consume one block event: apply the edit to the world with the
    /// overlap rule, then broadcast the authoritative block write and a
    /// redraw to every peer, followed by the overlap copy and a redraw
    /// for each crossed neighbour chunk.
    pub fn handle_block_event(&mut self, ev: &BlockEvent) -> (out: Vec<Outbound>)
        requires
            old(self).wf(),
            0 <= ev.y <= 255,
            i32::MIN < ev.x < i32::MAX,
            i32::MIN < ev.z < i32::MAX,
            ev.w != i8::MIN,
        ensures
            final(self).wf(),
            final(self).roster_view() == old(self).roster_view(),
            final(self).free_view() == old(self).free_view(),
            final(self).fresh_id() == old(self).fresh_id(),
            final(self).registry() == old(self).registry(),
            forall|dx: int, dz: int|
                -1 <= dx <= 1 && -1 <= dz <= 1 ==> #[trigger] final(self).sworld().block_at(
                    containing_chunk(ev.x as int + dx, ev.z as int + dz),
                    local_key(
                        (ev.x, ev.y, ev.z),
                        containing_chunk(ev.x as int + dx, ev.z as int + dz),
                    ),
                ) == Some(edit_value(ev.x as int, ev.z as int, dx, dz, ev.w)),
            forall|pq2: (i32, i32), l2: (u8, u8, u8)|
                (!is_edit_chunk(ev.x as int, ev.z as int, pq2) || l2 != local_key(
                    (ev.x, ev.y, ev.z),
                    pq2,
                )) ==> #[trigger] final(self).sworld().block_at(pq2, l2) == old(
                    self,
                ).sworld().block_at(pq2, l2),
            forall|pq2: (i32, i32), k2: (i32, i32, i32, u8)| #[trigger]
                final(self).sworld().sign_at(pq2, k2) == if ev.w == 0 && k2.0 == ev.x && k2.1
                    == ev.y && k2.2 == ev.z {
                    None::<Seq<char>>
                } else {
                    old(self).sworld().sign_at(pq2, k2)
                },
            forall|pq2: (i32, i32), l2: (u8, u8, u8)| #[trigger]
                final(self).sworld().light_at(pq2, l2) == old(self).sworld().light_at(pq2, l2),
            forall|pq2: (i32, i32)|
                !is_edit_chunk(ev.x as int, ev.z as int, pq2)
                    ==> #[trigger] final(self).sworld().blocks_list(pq2) == old(
                    self,
                ).sworld().blocks_list(pq2),
            forall|pq2: (i32, i32)| #[trigger]
                final(self).sworld().signs_list(pq2) == if ev.w == 0 {
                    crate::world::prune_sign_listing(
                        old(self).sworld().signs_list(pq2),
                        ev.x,
                        ev.y,
                        ev.z,
                    )
                } else {
                    old(self).sworld().signs_list(pq2)
                },
            final(self).sworld().pending_list() == old(self).sworld().pending_list() + edit_cmds(
                (ev.x, ev.y, ev.z),
                ev.w,
            ),
            out_views(out@) == edit_fanout(
                old(self).roster_view(),
                edit_chunks(ev.x as int, ev.z as int).take(1),
                ev.x,
                ev.y,
                ev.z,
                ev.w,
            ) + edit_fanout(
                old(self).roster_view(),
                edit_chunks(ev.x as int, ev.z as int).skip(1),
                ev.x,
                ev.y,
                ev.z,
                (0 - ev.w) as i8,
            ),
    {
        let ghost rv = self.roster_view();
        let touched = self.world.apply_block_edit(ev.x, ev.y, ev.z, ev.w);
        let ghost chunks = edit_chunks(ev.x as int, ev.z as int);
        proof {
            assert(touched@ == chunks);
            assert(chunks.len() >= 1);
            assert(self.roster_view() =~= old(self).roster_view());
            lemma_wf_parts(*old(self), *self);
        }
        let wneg: i8 = -ev.w;
        let first = (touched[0].0, touched[0].1);
        let mut out = self.pair_broadcast(
            &Message::BlockAt { p: first.0, q: first.1, x: ev.x, y: ev.y, z: ev.z, w: ev.w },
            &Message::RedrawChunk { p: first.0, q: first.1 },
        );
        proof {
            assert(chunks.take(1).drop_last() =~= Seq::<(i32, i32)>::empty());
            assert(chunks.take(1).last() == chunks[0]);
            assert(edit_fanout(rv, chunks.take(1).drop_last(), ev.x, ev.y, ev.z, ev.w)
                == Seq::<OutboundView>::empty());
            assert(out_views(out@) =~= edit_fanout(rv, chunks.take(1), ev.x, ev.y, ev.z, ev.w));
        }
        let ghost head = out_views(out@);
        let ghost tailchunks = chunks.skip(1);
        let mut k: usize = 1;
        proof {
            assert(tailchunks.take(0) =~= Seq::<(i32, i32)>::empty());
            assert(out_views(out@) =~= head + edit_fanout(
                rv,
                tailchunks.take(0),
                ev.x,
                ev.y,
                ev.z,
                wneg,
            ));
        }
        while k < touched.len()
            invariant
                1 <= k <= touched@.len(),
                touched@ == chunks,
                rv == self.roster_view(),
                tailchunks == chunks.skip(1),
                wneg == (0 - ev.w) as i8,
                ev.w != i8::MIN,
                out_views(out@) == head + edit_fanout(
                    rv,
                    tailchunks.take(k - 1),
                    ev.x,
                    ev.y,
                    ev.z,
                    wneg,
                ),
            decreases touched@.len() - k,
        {
            let ghost before = out_views(out@);
            let target = (touched[k].0, touched[k].1);
            let mut part = self.pair_broadcast(
                &Message::BlockAt { p: target.0, q: target.1, x: ev.x, y: ev.y, z: ev.z, w: wneg },
                &Message::RedrawChunk { p: target.0, q: target.1 },
            );
            let ghost partv = out_views(part@);
            out.append(&mut part);
            proof {
                assert(out_views(out@) =~= before + partv);
                assert(tailchunks.take(k as int).drop_last() =~= tailchunks.take(k - 1));
                assert(tailchunks.take(k as int).last() == tailchunks[k - 1]);
                assert(tailchunks[k - 1] == chunks[k as int]);
                assert(out_views(out@) =~= head + edit_fanout(
                    rv,
                    tailchunks.take(k as int),
                    ev.x,
                    ev.y,
                    ev.z,
                    wneg,
                ));
            }
            k += 1;
        }
        proof {
            assert(tailchunks.take(touched@.len() - 1) =~= tailchunks);
        }
        out
    }

    /// Consume one sign event: write the sign into its authoritative
    /// chunk (empty text deletes that face) and broadcast the
    /// server-formatted sign record to every peer.
    pub fn handle_sign_event(&mut self, ev: &SignEvent) -> (out: Vec<Outbound>)
        requires
            old(self).wf(),
        ensures
            final(self).wf(),
            final(self).roster_view() == old(self).roster_view(),
            final(self).free_view() == old(self).free_view(),
            final(self).fresh_id() == old(self).fresh_id(),
            final(self).registry() == old(self).registry(),
            forall|pq2: (i32, i32), k2: (i32, i32, i32, u8)| #[trigger]
                final(self).sworld().sign_at(pq2, k2) == if pq2 == (
                (spec_chunked(ev.x as int) as i32),
                (spec_chunked(ev.z as int) as i32),
                ) && k2 == (ev.x, ev.y, ev.z, ev.face) {
                    if ev.text@.len() == 0 {
                        None::<Seq<char>>
                    } else {
                        Some(ev.text@)
                    }
                } else {
                    old(self).sworld().sign_at(pq2, k2)
                },
            forall|pq2: (i32, i32), l2: (u8, u8, u8)| #[trigger]
                final(self).sworld().block_at(pq2, l2) == old(self).sworld().block_at(pq2, l2),
            forall|pq2: (i32, i32), l2: (u8, u8, u8)| #[trigger]
                final(self).sworld().light_at(pq2, l2) == old(self).sworld().light_at(pq2, l2),
            forall|pq2: (i32, i32)| #[trigger]
                final(self).sworld().blocks_list(pq2) == old(self).sworld().blocks_list(pq2),
            forall|pq2: (i32, i32)|
                pq2 != ((spec_chunked(ev.x as int) as i32), (spec_chunked(ev.z as int) as i32))
                    ==> #[trigger] final(self).sworld().signs_list(pq2) == old(
                    self,
                ).sworld().signs_list(pq2),
            final(self).sworld().pending_list() == old(self).sworld().pending_list().push(
                (crate::world::StoreCommandView::SetSign {
                    xyz: (ev.x, ev.y, ev.z),
                    face: ev.face,
                    text: ev.text@,
                }),
            ),
            out_views(out@) == broadcast_to_all(
                old(self).roster_view(),
                (MessageView::SignAt {
                    p: spec_chunked(ev.x as int) as i32,
                    q: spec_chunked(ev.z as int) as i32,
                    x: ev.x,
                    y: ev.y,
                    z: ev.z,
                    face: ev.face,
                    text: ev.text@,
                }),
            ),
    {
        let p = chunked(ev.x);
        let q = chunked(ev.z);
        self.world.set_sign((ev.x, ev.y, ev.z), (p, q), ev.face, Sign(ev.text.clone()));
        proof {
            assert(self.roster_view() =~= old(self).roster_view());
            lemma_wf_parts(*old(self), *self);
        }
        self.broadcast_wire(
            &Message::SignAt {
                p,
                q,
                x: ev.x,
                y: ev.y,
                z: ev.z,
                face: ev.face,
                text: ev.text.clone(),
            },
        )
    }

    /// Consume one light event: write the light level into its
    /// authoritative chunk and broadcast the server-formatted light
    /// record to every peer.
    pub fn handle_light_event(&mut self, ev: &LightEvent) -> (out: Vec<Outbound>)
        requires
            old(self).wf(),
            0 <= ev.y <= 255,
        ensures
            final(self).wf(),
            final(self).roster_view() == old(self).roster_view(),
            final(self).free_view() == old(self).free_view(),
            final(self).fresh_id() == old(self).fresh_id(),
            final(self).registry() == old(self).registry(),
            forall|pq2: (i32, i32), l2: (u8, u8, u8)| #[trigger]
                final(self).sworld().light_at(pq2, l2) == if pq2 == (
                (spec_chunked(ev.x as int) as i32),
                (spec_chunked(ev.z as int) as i32),
                ) && l2 == local_key((ev.x, ev.y, ev.z), pq2) {
                    Some(ev.w)
                } else {
                    old(self).sworld().light_at(pq2, l2)
                },
            forall|pq2: (i32, i32), l2: (u8, u8, u8)| #[trigger]
                final(self).sworld().block_at(pq2, l2) == old(self).sworld().block_at(pq2, l2),
            forall|pq2: (i32, i32), k2: (i32, i32, i32, u8)| #[trigger]
                final(self).sworld().sign_at(pq2, k2) == old(self).sworld().sign_at(pq2, k2),
            forall|pq2: (i32, i32)| #[trigger]
                final(self).sworld().blocks_list(pq2) == old(self).sworld().blocks_list(pq2),
            forall|pq2: (i32, i32)| #[trigger]
                final(self).sworld().signs_list(pq2) == old(self).sworld().signs_list(pq2),
            final(self).sworld().pending_list() == old(self).sworld().pending_list(),
            out_views(out@) == broadcast_to_all(
                old(self).roster_view(),
                (MessageView::LightAt {
                    p: spec_chunked(ev.x as int) as i32,
                    q: spec_chunked(ev.z as int) as i32,
                    x: ev.x,
                    y: ev.y,
                    z: ev.z,
                    w: ev.w,
                }),
            ),
    {
        let p = chunked(ev.x);
        let q = chunked(ev.z);
        proof {
            crate::world::lemma_chunked_floor(ev.x as int);
            crate::world::lemma_chunked_floor(ev.z as int);
            assert(crate::world::local_in_range((ev.x, ev.y, ev.z), (p, q)));
        }
        self.world.set_light((ev.x, ev.y, ev.z), (p, q), Light(ev.w));
        proof {
            assert(self.roster_view() =~= old(self).roster_view());
            lemma_wf_parts(*old(self), *self);
        }
        self.broadcast_wire(
            &Message::LightAt { p, q, x: ev.x, y: ev.y, z: ev.z, w: ev.w },
        )
    }
}

/// A hub whose roster, free pool and watermark carried over from a well
/// formed one, with a still well formed world, is well formed.
proof fn lemma_wf_parts(pre: Hub, post: Hub)
    requires
        pre.wf(),
        post.roster_view() == pre.roster_view(),
        post.free_view() == pre.free_view(),
        post.fresh_id() == pre.fresh_id(),
        post.sworld().wf(),
        post.registry().wf(),
    ensures
        post.wf(),
{
    assert forall|a: int, b: int| 0 <= a < b < post.roster_view().len() implies (
    #[trigger] post.roster_view()[a]).0 != (#[trigger] post.roster_view()[b]).0 by {
        assert(pre.roster_view()[a].0 != pre.roster_view()[b].0);
    }
    assert forall|a: int, b: int| 0 <= a < b < post.free_view().len() implies post.free_view()[a]
        != post.free_view()[b] by {
        assert(pre.free_view()[a] != pre.free_view()[b]);
    }
    assert forall|a: int, b: int|
        0 <= a < post.roster_view().len() && 0 <= b < post.free_view().len() implies (
    #[trigger] post.roster_view()[a]).0 != #[trigger] post.free_view()[b] by {
        assert(pre.roster_view()[a].0 != pre.free_view()[b]);
    }
    assert forall|a: int| 0 <= a < post.roster_view().len() implies (
    #[trigger] post.roster_view()[a]).0 < post.fresh_id() by {
        assert(pre.roster_view()[a].0 < pre.fresh_id());
    }
    assert forall|b: int| 0 <= b < post.free_view().len() implies #[trigger] post.free_view()[b]
        < post.fresh_id() by {
        assert(pre.free_view()[b] < pre.fresh_id());
    }
}

/// Nothing about the hub changed.
pub open spec fn hub_unchanged(pre: Hub, post: Hub) -> bool {
    &&& post.roster_view() == pre.roster_view()
    &&& post.free_view() == pre.free_view()
    &&& post.fresh_id() == pre.fresh_id()
    &&& post.sworld() == pre.sworld()
    &&& post.registry() == pre.registry()
}

impl Hub {
    /// Run one chat command, the text after the leading slash: `say`
    /// broadcasts an announcement; `nick` renames the speaker, updates
    /// the registry under the speaker's address, and announces the
    /// rename; anything else, and any invalid usage, does nothing.
    pub fn handle_command(&mut self, id: u32, command: &str) -> (out: Vec<Outbound>)
        requires
            old(self).wf(),
            (command@.len() >= 5 && command@.take(5) == "nick "@ && crate::commands::spec_parse_nick(
                command@,
            ) is Some) ==> old(self).peer_of(id) is Some,
        ensures
            final(self).wf(),
            ({
                let cmd = command@;
                if cmd.len() >= 4 && cmd.take(4) == "say "@ {
                    match crate::commands::spec_parse_say(cmd) {
                        Some(ann) => out_views(out@) == broadcast_to_all(
                            old(self).roster_view(),
                            (MessageView::TalkMsg { text: ann }),
                        ) && hub_unchanged(*old(self), *final(self)),
                        None => out@.len() == 0 && hub_unchanged(*old(self), *final(self)),
                    }
                } else if cmd.len() >= 5 && cmd.take(5) == "nick "@ {
                    match crate::commands::spec_parse_nick(cmd) {
                        Some(new_nick) => {
                            let cur = old(self).peer_of(id).unwrap();
                            if new_nick == cur.nick {
                                out@.len() == 0 && hub_unchanged(*old(self), *final(self))
                            } else {
                                &&& (forall|ip2: Seq<char>| #[trigger]
                                    final(self).registry().nick_of(ip2) == if ip2 == cur.addr {
                                        Some(new_nick)
                                    } else {
                                        old(self).registry().nick_of(ip2)
                                    })
                                &&& final(self).roster_view().len() == old(
                                    self,
                                ).roster_view().len()
                                &&& (forall|a: int|
                                    0 <= a < final(self).roster_view().len()
                                        ==> #[trigger] final(self).roster_view()[a] == if old(
                                        self,
                                    ).roster_view()[a].0 == id {
                                        (
                                            id,
                                            (PeerView {
                                                nick: new_nick,
                                                addr: old(self).roster_view()[a].1.addr,
                                                pos: old(self).roster_view()[a].1.pos,
                                            }),
                                        )
                                    } else {
                                        old(self).roster_view()[a]
                                    })
                                &&& out_views(out@) == broadcast_to_all(
                                    final(self).roster_view(),
                                    (MessageView::TalkMsg {
                                        text: cur.nick + " is now known as: "@ + new_nick,
                                    }),
                                )
                                &&& final(self).free_view() == old(self).free_view()
                                &&& final(self).fresh_id() == old(self).fresh_id()
                                &&& final(self).sworld() == old(self).sworld()
                            }
                        },
                        None => out@.len() == 0 && hub_unchanged(*old(self), *final(self)),
                    }
                } else {
                    out@.len() == 0 && hub_unchanged(*old(self), *final(self))
                }
            }),
    {
        proof {
            reveal_strlit("say ");
            reveal_strlit("nick ");
        }
        if crate::commands::has_prefix(command, "say ") {
            match crate::commands::parse_say(command) {
                Some(ann) => self.broadcast_text(ann),
                None => Vec::new(),
            }
        } else if crate::commands::has_prefix(command, "nick ") {
            match crate::commands::parse_nick(command) {
                Some(new_nick) => {
                    let ghost rv = self.roster_view();
                    let i = match self.find_peer(id) {
                        Some(i) => i,
                        None => {
                            proof {
                                crate::world::lemma_assoc_get_absent(self.roster_view(), id);
                            }
                            // Unreachable: the rename path requires a
                            // rostered speaker.
                            loop
                                invariant
                                    false,
                                decreases 0int,
                            {
                            }
                        },
                    };
                    proof {
                        crate::world::lemma_assoc_get_at(self.roster_view(), i as int);
                    }
                    if self.roster[i].1.nick == new_nick {
                        Vec::new()
                    } else {
                        let curnick = self.roster[i].1.nick.clone();
                        let peer_addr = self.roster[i].1.addr.clone();
                        self.nicks.set(peer_addr.as_str(), new_nick.as_str());
                        let ghost pres = self.roster@;
                        let mut entry = self.roster.remove(i);
                        entry.1.nick = new_nick.clone();
                        self.roster.insert(i, entry);
                        proof {
                            assert(self.roster@ =~= pres.update(i as int, self.roster@[i as int]));
                            assert forall|a: int|
                                0 <= a < self.roster_view().len() implies #[trigger] self
                                .roster_view()[a] == if rv[a].0 == id {
                                (
                                    id,
                                    (PeerView {
                                        nick: new_nick@,
                                        addr: rv[a].1.addr,
                                        pos: rv[a].1.pos,
                                    }),
                                )
                            } else {
                                rv[a]
                            } by {
                                if a != i as int {
                                    assert(self.roster@[a] == pres[a]);
                                    assert(rv[a].0 != id || a == i as int) by {
                                        if rv[a].0 == id {
                                            assert(rv[a].0 == rv[i as int].0);
                                        }
                                    }
                                }
                            }
                            assert(self.wf()) by {
                                assert forall|a: int, b: int|
                                    0 <= a < b < self.roster_view().len() implies (
                                #[trigger] self.roster_view()[a]).0 != (#[trigger] self
                                    .roster_view()[b]).0 by {
                                    assert(self.roster_view()[a].0 == rv[a].0);
                                    assert(self.roster_view()[b].0 == rv[b].0);
                                }
                                assert forall|a: int, b: int|
                                    0 <= a < self.roster_view().len() && 0 <= b
                                        < self.free_view().len() implies (#[trigger] self
                                    .roster_view()[a]).0 != #[trigger] self.free_view()[b] by {
                                    assert(self.roster_view()[a].0 == rv[a].0);
                                    assert(old(self).roster_view()[a].0 != old(
                                        self,
                                    ).free_view()[b]);
                                }
                                assert forall|a: int|
                                    0 <= a < self.roster_view().len() implies (
                                #[trigger] self.roster_view()[a]).0 < self.fresh_id() by {
                                    assert(self.roster_view()[a].0 == rv[a].0);
                                    assert(old(self).roster_view()[a].0 < old(self).fresh_id());
                                }
                                assert forall|a: int, b: int|
                                    0 <= a < b < self.free_view().len() implies self.free_view()[a]
                                    != self.free_view()[b] by {
                                    assert(old(self).free_view()[a] != old(self).free_view()[b]);
                                }
                                assert forall|b: int|
                                    0 <= b < self.free_view().len() implies #[trigger] self
                                    .free_view()[b] < self.fresh_id() by {
                                    assert(old(self).free_view()[b] < old(self).fresh_id());
                                }
                            }
                        }
                        let mut msg = curnick;
                        msg.append(" is now known as: ");
                        msg.append(new_nick.as_str());
                        proof {
                            assert(msg@ =~= old(self).peer_of(id).unwrap().nick
                                + " is now known as: "@ + new_nick@);
                        }
                        self.broadcast_text(msg)
                    }
                },
                None => Vec::new(),
            }
        } else {
            Vec::new()
        }
    }
}

impl Hub {
    /// Consume one chunk request: stream every stored block and sign of
    /// the chunk back to the requesting peer, then a redraw when
    /// anything was sent; an unknown requester gets nothing.
    pub fn handle_chunk_event(&self, id: u32, ev: &ChunkRequestEvent) -> (out: Vec<Outbound>)
        requires
            self.wf(),
        ensures
            match self.peer_of(id) {
                None => out@.len() == 0,
                Some(_) => out_views(out@) == chunk_blocks_msgs(
                    id,
                    (ev.p, ev.q),
                    self.sworld().blocks_list((ev.p, ev.q)),
                ) + chunk_signs_msgs(id, self.sworld().signs_list((ev.p, ev.q))) + if self.sworld()
                    .blocks_list((ev.p, ev.q)).len() > 0 || self.sworld().signs_list(
                    (ev.p, ev.q),
                ).len() > 0 {
                    seq![
                        (OutboundView {
                            dest: id,
                            msg: wire_of((MessageView::RedrawChunk { p: ev.p, q: ev.q })),
                        }),
                    ]
                } else {
                    Seq::<OutboundView>::empty()
                },
            },
    {
        match self.find_peer(id) {
            None => {
                proof {
                    crate::world::lemma_assoc_get_absent(self.roster_view(), id);
                }
                Vec::new()
            },
            Some(pi) => {
                proof {
                    crate::world::lemma_assoc_get_at(self.roster_view(), pi as int);
                }
                let pq = (ev.p, ev.q);
                let ghost bl = self.sworld().blocks_list(pq);
                let ghost sl = self.sworld().signs_list(pq);
                let mut out: Vec<Outbound> = Vec::new();
                let mut sent = false;
                proof {
                    assert(bl.take(0) =~= Seq::<((u8, u8, u8), i8)>::empty());
                    assert(out_views(out@) =~= chunk_blocks_msgs(id, pq, bl.take(0)));
                }
                match self.world.blocks_in_chunk(pq) {
                    Some(v) => {
                        let ghost vm = v@.map_values(|e: ((u8, u8, u8), Block)| (e.0, e.1.0));
                        let n = v.len();
                        let mut i: usize = 0;
                        while i < n
                            invariant
                                0 <= i <= n,
                                n == v@.len(),
                                vm == v@.map_values(|e: ((u8, u8, u8), Block)| (e.0, e.1.0)),
                                vm == bl,
                                pq == (ev.p, ev.q),
                                forall|j: int|
                                    0 <= j < v@.len() ==> {
                                        &&& i32::MIN <= pq.0 * 32 - 1 + (#[trigger] v@[j]).0.0
                                            <= i32::MAX
                                        &&& i32::MIN <= pq.1 * 32 - 1 + v@[j].0.2 <= i32::MAX
                                    },
                                out_views(out@) == chunk_blocks_msgs(id, pq, bl.take(i as int)),
                            decreases n - i,
                        {
                            let ghost before = out_views(out@);
                            let e = v[i];
                            proof {
                                assert(bl[i as int] == (v@[i as int].0, v@[i as int].1.0));
                                assert(bl.take(i as int + 1).drop_last() =~= bl.take(i as int));
                                assert(bl.take(i as int + 1).last() == bl[i as int]);
                            }
                            let gx = ((pq.0 as i64) * 32 - 1 + (e.0.0 as i64)) as i32;
                            let gz = ((pq.1 as i64) * 32 - 1 + (e.0.2 as i64)) as i32;
                            out.push(
                                Outbound {
                                    dest: id,
                                    msg: format_message(
                                        &Message::BlockAt {
                                            p: pq.0,
                                            q: pq.1,
                                            x: gx,
                                            y: e.0.1 as i32,
                                            z: gz,
                                            w: e.1.0,
                                        },
                                    ),
                                },
                            );
                            proof {
                                assert(out_views(out@) =~= chunk_blocks_msgs(
                                    id,
                                    pq,
                                    bl.take(i as int + 1),
                                ));
                            }
                            i += 1;
                        }
                        proof {
                            assert(bl.take(n as int) =~= bl);
                        }
                        if n > 0 {
                            sent = true;
                        }
                    },
                    None => {
                        proof {
                            assert(bl =~= Seq::<((u8, u8, u8), i8)>::empty());
                            assert(out_views(out@) =~= chunk_blocks_msgs(id, pq, bl));
                        }
                    },
                }
                let ghost head = out_views(out@);
                proof {
                    assert(head == chunk_blocks_msgs(id, pq, bl));
                    assert(sl.take(0) =~= Seq::<((i32, i32, i32, u8), Seq<char>)>::empty());
                    assert(out_views(out@) =~= head + chunk_signs_msgs(id, sl.take(0)));
                }
                match self.world.signs_in_chunk(pq) {
                    Some(v) => {
                        let ghost vm = v@.map_values(
                            |e: ((i32, i32, i32, u8), Sign)| (e.0, e.1@),
                        );
                        let n = v.len();
                        let mut i: usize = 0;
                        while i < n
                            invariant
                                0 <= i <= n,
                                n == v@.len(),
                                vm == v@.map_values(|e: ((i32, i32, i32, u8), Sign)| (e.0, e.1@)),
                                vm == sl,
                                pq == (ev.p, ev.q),
                                out_views(out@) == head + chunk_signs_msgs(id, sl.take(i as int)),
                            decreases n - i,
                        {
                            let ghost before = out_views(out@);
                            proof {
                                assert(sl[i as int] == (v@[i as int].0, v@[i as int].1@));
                                assert(sl.take(i as int + 1).drop_last() =~= sl.take(i as int));
                                assert(sl.take(i as int + 1).last() == sl[i as int]);
                            }
                            let key = v[i].0;
                            let text = v[i].1.0.clone();
                            let sp = chunked(key.0);
                            let sq = chunked(key.2);
                            proof {
                                assert(sp as int == spec_chunked(key.0 as int));
                                assert(sq as int == spec_chunked(key.2 as int));
                            }
                            out.push(
                                Outbound {
                                    dest: id,
                                    msg: format_message(
                                        &Message::SignAt {
                                            p: sp,
                                            q: sq,
                                            x: key.0,
                                            y: key.1,
                                            z: key.2,
                                            face: key.3,
                                            text,
                                        },
                                    ),
                                },
                            );
                            proof {
                                assert(out_views(out@) =~= before + seq![
                                    (OutboundView {
                                        dest: id,
                                        msg: wire_of(
                                            (MessageView::SignAt {
                                                p: spec_chunked(sl[i as int].0.0 as int) as i32,
                                                q: spec_chunked(sl[i as int].0.2 as int) as i32,
                                                x: sl[i as int].0.0,
                                                y: sl[i as int].0.1,
                                                z: sl[i as int].0.2,
                                                face: sl[i as int].0.3,
                                                text: sl[i as int].1,
                                            }),
                                        ),
                                    }),
                                ]);
                                assert(out_views(out@) =~= head + chunk_signs_msgs(
                                    id,
                                    sl.take(i as int + 1),
                                ));
                            }
                            i += 1;
                        }
                        proof {
                            assert(sl.take(n as int) =~= sl);
                        }
                        if n > 0 {
                            sent = true;
                        }
                    },
                    None => {
                        proof {
                            assert(sl =~= Seq::<((i32, i32, i32, u8), Seq<char>)>::empty());
                            assert(out_views(out@) =~= head + chunk_signs_msgs(id, sl));
                        }
                    },
                }
                if sent {
                    let ghost before = out_views(out@);
                    out.push(
                        Outbound {
                            dest: id,
                            msg: format_message(&Message::RedrawChunk { p: ev.p, q: ev.q }),
                        },
                    );
                    proof {
                        assert(out_views(out@) =~= before + seq![
                            (OutboundView {
                                dest: id,
                                msg: wire_of((MessageView::RedrawChunk { p: ev.p, q: ev.q })),
                            }),
                        ]);
                    }
                }
                out
            },
        }
    }

    /// Consume one disconnect: drop the peer from the roster, return its
    /// ID to the free pool, and tell every survivor about the departure
    /// together with a chat notice; a disconnect for an ID that is not
    /// rostered only notifies the survivors, without a notice.
    pub fn handle_disconnect_event(&mut self, id: u32) -> (out: Vec<Outbound>)
        requires
            old(self).wf(),
        ensures
            final(self).wf(),
            final(self).sworld() == old(self).sworld(),
            final(self).registry() == old(self).registry(),
            final(self).fresh_id() == old(self).fresh_id(),
            match old(self).peer_of(id) {
                Some(pv) => exists|i: int|
                    {
                        &&& 0 <= i < old(self).roster_view().len()
                        &&& (#[trigger] old(self).roster_view()[i]).0 == id
                        &&& final(self).roster_view() == old(self).roster_view().remove(i)
                        &&& final(self).free_view() == old(self).free_view().push(id)
                        &&& out_views(out@) == disconnect_fanout(
                            old(self).roster_view().remove(i),
                            id,
                            Some(pv.nick + " has left the game"@),
                        )
                    },
                None => {
                    &&& final(self).roster_view() == old(self).roster_view()
                    &&& final(self).free_view() == old(self).free_view()
                    &&& out_views(out@) == disconnect_fanout(
                        old(self).roster_view(),
                        id,
                        None::<Seq<char>>,
                    )
                },
            },
    {
        let ghost rv = self.roster_view();
        match self.find_peer(id) {
            Some(i) => {
                proof {
                    crate::world::lemma_assoc_get_at(rv, i as int);
                }
                let entry = self.roster.remove(i);
                let leaver_nick = entry.1.nick;
                self.free_ids.push(id);
                proof {
                    assert(self.roster_view() =~= rv.remove(i as int));
                    assert(forall|a: int|
                        0 <= a < self.roster_view().len() ==> #[trigger] self.roster_view()[a]
                            == if a < i as int {
                            rv[a]
                        } else {
                            rv[a + 1]
                        });
                    assert(self.wf()) by {
                        assert forall|a: int, b: int|
                            0 <= a < b < self.roster_view().len() implies (
                        #[trigger] self.roster_view()[a]).0 != (#[trigger] self.roster_view()[b]).0
                            by {}
                        assert forall|a: int, b: int|
                            0 <= a < self.roster_view().len() && 0 <= b < self.free_view().len()
                            implies (#[trigger] self.roster_view()[a]).0 != #[trigger] self
                            .free_view()[b] by {
                            if b < self.free_view().len() - 1 {
                                assert(self.free_view()[b] == old(self).free_view()[b]);
                            } else {
                                assert(self.free_view()[b] == id);
                                // The removed entry was the only one
                                // carrying this ID.
                                if a < i as int {
                                    assert(rv[a].0 != rv[i as int].0);
                                } else {
                                    assert(rv[a + 1].0 != rv[i as int].0);
                                }
                            }
                        }
                        assert forall|a: int, b: int|
                            0 <= a < b < self.free_view().len() implies self.free_view()[a]
                            != self.free_view()[b] by {
                            if b < self.free_view().len() - 1 {
                                assert(old(self).free_view()[a] != old(self).free_view()[b]);
                            } else {
                                assert(self.free_view()[b] == id);
                                assert(old(self).free_view()[a] != rv[i as int].0);
                            }
                        }
                        assert forall|b: int|
                            0 <= b < self.free_view().len() implies #[trigger] self.free_view()[b]
                            < self.fresh_id() by {
                            if b < self.free_view().len() - 1 {
                                assert(old(self).free_view()[b] < old(self).fresh_id());
                            } else {
                                assert(rv[i as int].0 < old(self).fresh_id());
                            }
                        }
                        assert forall|a: int|
                            0 <= a < self.roster_view().len() implies (
                        #[trigger] self.roster_view()[a]).0 < self.fresh_id() by {}
                    }
                }
                let mut notice = leaver_nick;
                notice.append(" has left the game");
                proof {
                    assert(notice@ =~= old(self).peer_of(id).unwrap().nick
                        + " has left the game"@);
                }
                let ghost remaining = self.roster_view();
                let ghost noticev = Some(notice@);
                let mut out: Vec<Outbound> = Vec::new();
                let n = self.roster.len();
                let mut j: usize = 0;
                proof {
                    assert(remaining.take(0) =~= Seq::<(u32, PeerView)>::empty());
                    assert(out_views(out@) =~= disconnect_fanout(remaining.take(0), id, noticev));
                }
                while j < n
                    invariant
                        0 <= j <= n,
                        n == self.roster@.len(),
                        remaining == self.roster_view(),
                        noticev == Some(notice@),
                        out_views(out@) == disconnect_fanout(remaining.take(j as int), id, noticev),
                    decreases n - j,
                {
                    let ghost before = out_views(out@);
                    proof {
                        assert(remaining[j as int].0 == self.roster@[j as int].0);
                        assert(remaining.take(j as int + 1).drop_last() =~= remaining.take(
                            j as int,
                        ));
                        assert(remaining.take(j as int + 1).last() == remaining[j as int]);
                    }
                    let dest = self.roster[j].0;
                    out.push(Outbound { dest, msg: format_message(&Message::Gone { id }) });
                    out.push(
                        Outbound {
                            dest,
                            msg: format_message(&Message::TalkMsg { text: notice.clone() }),
                        },
                    );
                    proof {
                        assert(out_views(out@) =~= before + seq![
                            (OutboundView { dest, msg: wire_of((MessageView::Gone { id })) }),
                            (OutboundView {
                                dest,
                                msg: wire_of((MessageView::TalkMsg { text: notice@ })),
                            }),
                        ]);
                        assert(out_views(out@) =~= disconnect_fanout(
                            remaining.take(j as int + 1),
                            id,
                            noticev,
                        ));
                    }
                    j += 1;
                }
                proof {
                    assert(remaining.take(n as int) =~= remaining);
                }
                out
            },
            None => {
                proof {
                    crate::world::lemma_assoc_get_absent(rv, id);
                }
                let mut out: Vec<Outbound> = Vec::new();
                let n = self.roster.len();
                let mut j: usize = 0;
                proof {
                    assert(rv.take(0) =~= Seq::<(u32, PeerView)>::empty());
                    assert(out_views(out@) =~= disconnect_fanout(
                        rv.take(0),
                        id,
                        None::<Seq<char>>,
                    ));
                }
                while j < n
                    invariant
                        0 <= j <= n,
                        n == self.roster@.len(),
                        rv == self.roster_view(),
                        out_views(out@) == disconnect_fanout(rv.take(j as int), id, None::<
                            Seq<char>,
                        >),
                    decreases n - j,
                {
                    let ghost before = out_views(out@);
                    proof {
                        assert(rv[j as int].0 == self.roster@[j as int].0);
                        assert(rv.take(j as int + 1).drop_last() =~= rv.take(j as int));
                        assert(rv.take(j as int + 1).last() == rv[j as int]);
                    }
                    let dest = self.roster[j].0;
                    out.push(Outbound { dest, msg: format_message(&Message::Gone { id }) });
                    proof {
                        assert(out_views(out@) =~= before + seq![
                            (OutboundView { dest, msg: wire_of((MessageView::Gone { id })) }),
                        ]);
                        assert(out_views(out@) =~= disconnect_fanout(
                            rv.take(j as int + 1),
                            id,
                            None::<Seq<char>>,
                        ));
                    }
                    j += 1;
                }
                proof {
                    assert(rv.take(n as int) =~= rv);
                }
                out
            },
        }
    }

    /// Record a block loaded from durable storage into the world.
    pub fn load_block(&mut self, global_pos: (i32, i32, i32), pq: (i32, i32), block: Block)
        requires
            old(self).wf(),
            crate::world::local_in_range(global_pos, pq),
        ensures
            final(self).wf(),
            final(self).roster_view() == old(self).roster_view(),
            final(self).free_view() == old(self).free_view(),
            final(self).fresh_id() == old(self).fresh_id(),
            final(self).registry() == old(self).registry(),
            forall|pq2: (i32, i32), l2: (u8, u8, u8)| #[trigger]
                final(self).sworld().block_at(pq2, l2) == if pq2 == pq && l2 == local_key(
                    global_pos,
                    pq,
                ) {
                    Some(block.0)
                } else {
                    old(self).sworld().block_at(pq2, l2)
                },
            forall|pq2: (i32, i32), k2: (i32, i32, i32, u8)| #[trigger]
                final(self).sworld().sign_at(pq2, k2) == old(self).sworld().sign_at(pq2, k2),
            forall|pq2: (i32, i32)|
                pq2 != pq ==> #[trigger] final(self).sworld().blocks_list(pq2) == old(
                    self,
                ).sworld().blocks_list(pq2),
            forall|pq2: (i32, i32)| #[trigger]
                final(self).sworld().signs_list(pq2) == old(self).sworld().signs_list(pq2),
            final(self).sworld().pending_list() == old(self).sworld().pending_list(),
    {
        self.world.load_block(global_pos, pq, block);
        proof {
            assert(self.roster_view() =~= old(self).roster_view());
            lemma_wf_parts(*old(self), *self);
        }
    }

    /// Record a sign loaded from durable storage into the world.
    pub fn load_sign(&mut self, global_pos: (i32, i32, i32), pq: (i32, i32), face: u8, sign: Sign)
        requires
            old(self).wf(),
        ensures
            final(self).wf(),
            final(self).roster_view() == old(self).roster_view(),
            final(self).free_view() == old(self).free_view(),
            final(self).fresh_id() == old(self).fresh_id(),
            final(self).registry() == old(self).registry(),
            forall|pq2: (i32, i32), k2: (i32, i32, i32, u8)| #[trigger]
                final(self).sworld().sign_at(pq2, k2) == if pq2 == pq && k2 == (
                global_pos.0,
                global_pos.1,
                global_pos.2,
                face,
                ) {
                    if sign@.len() == 0 {
                        None::<Seq<char>>
                    } else {
                        Some(sign@)
                    }
                } else {
                    old(self).sworld().sign_at(pq2, k2)
                },
            forall|pq2: (i32, i32), l2: (u8, u8, u8)| #[trigger]
                final(self).sworld().block_at(pq2, l2) == old(self).sworld().block_at(pq2, l2),
            forall|pq2: (i32, i32)| #[trigger]
                final(self).sworld().blocks_list(pq2) == old(self).sworld().blocks_list(pq2),
            forall|pq2: (i32, i32)|
                pq2 != pq ==> #[trigger] final(self).sworld().signs_list(pq2) == old(
                    self,
                ).sworld().signs_list(pq2),
            final(self).sworld().pending_list() == old(self).sworld().pending_list(),
    {
        self.world.load_sign(global_pos, pq, face, sign);
        proof {
            assert(self.roster_view() =~= old(self).roster_view());
            lemma_wf_parts(*old(self), *self);
        }
    }

    /// Register a nickname loaded from the registry file.
    pub fn load_nick(&mut self, ip: &str, nick: &str)
        requires
            old(self).wf(),
        ensures
            final(self).wf(),
            final(self).roster_view() == old(self).roster_view(),
            final(self).free_view() == old(self).free_view(),
            final(self).fresh_id() == old(self).fresh_id(),
            final(self).sworld() == old(self).sworld(),
            forall|ip2: Seq<char>| #[trigger]
                final(self).registry().nick_of(ip2) == if ip2 == ip@ {
                    Some(nick@)
                } else {
                    old(self).registry().nick_of(ip2)
                },
    {
        self.nicks.set(ip, nick);
        proof {
            assert(self.roster_view() =~= old(self).roster_view());
            lemma_wf_parts(*old(self), *self);
        }
    }

    /// Hand the world's queued mutations to the persistence worker.
    pub fn drain_pending(&mut self) -> (cmds: Vec<crate::world::StoreCommand>)
        requires
            old(self).wf(),
        ensures
            final(self).wf(),
            final(self).roster_view() == old(self).roster_view(),
            final(self).free_view() == old(self).free_view(),
            final(self).fresh_id() == old(self).fresh_id(),
            final(self).registry() == old(self).registry(),
            final(self).sworld().store() == old(self).sworld().store(),
            final(self).sworld().pending_list() == Seq::<crate::world::StoreCommandView>::empty(),
            cmds@.map_values(|c: crate::world::StoreCommand| c@) == old(
                self,
            ).sworld().pending_list(),
    {
        let cmds = self.world.drain_pending();
        proof {
            assert(self.roster_view() =~= old(self).roster_view());
            lemma_wf_parts(*old(self), *self);
        }
        cmds
    }

    /// The world state, for queries.
    pub fn world_ref(&self) -> (r: &World)
        ensures
            *r == self.sworld(),
    {
        &self.world
    }

    /// The nickname registry, for queries and rendering.
    pub fn registry_ref(&self) -> (r: &NickManager)
        ensures
            *r == self.registry(),
    {
        &self.nicks
    }

    /// Whether another peer can be accepted: an ID is free for reuse,
    /// or a fresh one can still be allocated.
    pub fn can_accept(&self) -> (r: bool)
        ensures
            r == (self.free_view().len() > 0 || self.fresh_id() < u32::MAX),
    {
        self.free_ids.len() > 0 || self.next_fresh < u32::MAX
    }

    /// The nickname of a rostered peer, if any.
    pub fn peer_nick(&self, id: u32) -> (r: Option<String>)
        requires
            self.wf(),
        ensures
            match r {
                Some(n) => self.peer_of(id) is Some && self.peer_of(id).unwrap().nick == n@,
                None => self.peer_of(id) is None,
            },
    {
        match self.find_peer(id) {
            Some(i) => {
                proof {
                    crate::world::lemma_assoc_get_at(self.roster_view(), i as int);
                }
                Some(self.roster[i].1.nick.clone())
            },
            None => {
                proof {
                    crate::world::lemma_assoc_get_absent(self.roster_view(), id);
                }
                None
            },
        }
    }
}

/// At most one peer stands in the roster for any ID, in every well
/// formed hub: accepts insert an ID that is neither rostered nor free,
/// and disconnects return a rostered ID to the free pool only as they
/// drop it from the roster.
pub proof fn lemma_at_most_one_peer(h: &Hub)
    requires
        h.wf(),
    ensures
        forall|i: int, j: int|
            0 <= i < j < h.roster_view().len() ==> (#[trigger] h.roster_view()[i]).0 != (
            #[trigger] h.roster_view()[j]).0,
{
}

/// What accepting one peer settles: its ID, its nickname, and the
/// initial burst of records to deliver.
pub struct AcceptResult {
    pub id: u32,
    pub nick: String,
    pub outbound: Vec<Outbound>,
}

} // verus!
