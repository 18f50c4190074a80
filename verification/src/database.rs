//! The players, groups, events and match results of a club, kept in maps
//! from numbers to records.
use vstd::prelude::*;
use std::collections::HashMap;
use std::collections::HashSet;
use crate::schedule;
use vstd::std_specs::iter::IteratorSpec;

verus! {

broadcast use vstd::std_specs::hash::group_hash_axioms;

/// An email address: the part before the `@` and the host after it.
pub struct Email {
    username: String,
    host: String,
}

/// Whether `s` is an email address: exactly one `@`, with characters before
/// and after it.
pub open spec fn is_email(s: Seq<char>) -> bool {
    exists|k: int|
        0 < k < s.len() - 1 && s[k] == '@' && forall|j: int| 0 <= j < s.len() && j != k ==> #[trigger] s[j]
            != '@'
}

impl Email {
    pub closed spec fn spec_username(&self) -> Seq<char> {
        self.username@
    }

    pub closed spec fn spec_host(&self) -> Seq<char> {
        self.host@
    }

    /// The address as text: the user name, `@`, the host.
    pub fn to_string(&self) -> (r: String)
        ensures
            r@ == self.spec_username() + seq!['@'] + self.spec_host(),
    {
        let mut r = String::from_str(self.username.as_str());
        proof {
            reveal_strlit("@");
        }
        r.append("@");
        r.append(self.host.as_str());
        r
    }

    /// Reads an email address: `Ok(None)` for the empty string, the address
    /// for a string with exactly one `@` that has characters on both sides,
    /// `Err` otherwise.
    pub fn parse_string(email_string: &str) -> (r: Result<Option<Self>, ()>)
        ensures
            email_string@.len() == 0 ==> r == Ok::<Option<Self>, ()>(None),
            email_string@.len() > 0 ==> (r is Ok <==> is_email(email_string@)),
            r matches Ok(Some(e)) ==> {
                &&& e.spec_username() + seq!['@'] + e.spec_host() == email_string@
                &&& !e.spec_username().contains('@')
            },
            r matches Ok(Some(_)) ==> email_string@.len() > 0,
    {
        let n = email_string.unicode_len();
        if n == 0 {
            return Ok(None);
        }
        let mut at: Option<usize> = None;
        let mut i: usize = 0;
        while i < n
            invariant
                n == email_string@.len(),
                i <= n,
                at matches Some(k) ==> k < i && email_string@[k as int] == '@' && forall|j: int|
                    0 <= j < i && j != k ==> #[trigger] email_string@[j] != '@',
                at is None ==> forall|j: int| 0 <= j < i ==> #[trigger] email_string@[j] != '@',
            decreases n - i,
        {
            let c = email_string.get_char(i);
            if c == '@' {
                match at {
                    Some(k) => {
                        proof {
                            assert(email_string@[k as int] == '@');
                            assert(!is_email(email_string@)) by {
                                if is_email(email_string@) {
                                    let kk = choose|kk: int|
                                        0 < kk < email_string@.len() - 1 && email_string@[kk] == '@' && forall|j: int|
                                            0 <= j < email_string@.len() && j != kk ==> #[trigger] email_string@[j] != '@';
                                    if kk != k {
                                        assert(email_string@[k as int] != '@');
                                    } else {
                                        assert(email_string@[i as int] != '@');
                                    }
                                }
                            }
                        }
                        return Err(());
                    },
                    None => {
                        at = Some(i);
                    },
                }
            }
            i = i + 1;
        }
        match at {
            None => {
                proof {
                    assert(!is_email(email_string@)) by {
                        if is_email(email_string@) {
                            let kk = choose|kk: int|
                                0 < kk < email_string@.len() - 1 && email_string@[kk] == '@' && forall|j: int|
                                    0 <= j < email_string@.len() && j != kk ==> #[trigger] email_string@[j] != '@';
                            assert(email_string@[kk] != '@');
                        }
                    }
                }
                Err(())
            },
            Some(k) => {
                if k == 0 || k + 1 == n {
                    proof {
                        assert(!is_email(email_string@)) by {
                            if is_email(email_string@) {
                                let kk = choose|kk: int|
                                    0 < kk < email_string@.len() - 1 && email_string@[kk] == '@' && forall|j: int|
                                        0 <= j < email_string@.len() && j != kk ==> #[trigger] email_string@[j] != '@';
                                if kk != k {
                                    assert(email_string@[k as int] != '@');
                                }
                            }
                        }
                    }
                    Err(())
                } else {
                    let username = email_string.substring_char(0, k).to_owned();
                    let host = email_string.substring_char(k + 1, n).to_owned();
                    proof {
                        assert(username@ + seq!['@'] + host@ =~= email_string@);
                        assert(!username@.contains('@')) by {
                            if username@.contains('@') {
                                let j = choose|j: int| 0 <= j < username@.len() && username@[j] == '@';
                                assert(email_string@[j] == '@');
                            }
                        }
                        assert(is_email(email_string@)) by {
                            assert(email_string@[k as int] == '@');
                        }
                    }
                    Ok(Some(Self { username, host }))
                }
            },
        }
    }
}

/// A player: a name and maybe an email address.
pub struct Player {
    pub name: String,
    pub email: Option<Email>,
}

/// A named group of players.
pub struct Group {
    pub name: String,
    players: HashSet<u32>,
}

/// The scores of a match.
pub struct Match {
    pub s: Vec<usize>,
}

/// An event: a name, a date, the schedule played, the players taking part,
/// the matches of each round, and the number of tables.
pub struct Event {
    pub name: String,
    pub date: String,
    pub schedule: schedule::Schedule,
    pub players: Vec<u32>,
    pub matches: Vec<Vec<u32>>,
    pub tables: usize,
}

impl Group {
    /// The players of the group.
    pub closed spec fn members(&self) -> Set<u32> {
        self.players@
    }

    /// The name of the group.
    pub closed spec fn name_view(&self) -> Seq<char> {
        self.name@
    }

    /// The players of the group, each once, in no particular order.
    pub fn get_players(&self) -> (r: Vec<u32>)
        ensures
            r@.to_set() == self.members(),
            r@.no_duplicates(),
    {
        let mut out: Vec<u32> = Vec::new();
        for x in it: self.players.iter()
            invariant
                out@ == it.seq().take(it.index() as int).unref(),
        {
            out.push(*x);
            proof {
                assert(out@ =~= it.seq().take(it.index() + 1).unref());
            }
        }
        proof {
            let rem = vstd::std_specs::hash::spec_hash_keys_iter(&self.players).remaining();
            assert(out@ =~= rem.unref());
        }
        out
    }
}

impl Event {
    /// An event with no match results yet.
    pub fn from(name: String, date: String, schedule: schedule::Schedule, players: Vec<u32>, tables: usize) -> (r:
        Option<Self>)
        ensures
            r matches Some(e) && e.name == name && e.date == date && e.players == players && e.matches@.len() == 0
                && e.tables == tables && e.schedule == schedule,
    {
        Some(Self { name, date, schedule, players, matches: Vec::new(), tables })
    }
}

/// Whether `id` is the first number from `start` on that `m` does not use.
pub open spec fn first_free<V>(m: Map<u32, V>, start: int, id: int) -> bool {
    &&& start <= id < u32::MAX
    &&& !m.contains_key(id as u32)
    &&& forall|j: int| start <= j < id ==> #[trigger] m.contains_key(j as u32)
}

/// Whether `m` uses every number from `start` below the largest `u32`.
pub open spec fn none_free<V>(m: Map<u32, V>, start: int) -> bool {
    forall|j: int| start <= j < u32::MAX ==> #[trigger] m.contains_key(j as u32)
}

/// The players, groups, events and matches of a club, each keyed by a number.
pub struct Database {
    players: HashMap<u32, Player>,
    groups: HashMap<u32, Group>,
    events: HashMap<u32, Event>,
    matches: HashMap<u32, Match>,
}

/// The first number from `start` on that `m` does not use, if any is below
/// the largest `u32`.
fn find_free<V>(m: &HashMap<u32, V>, start: u32) -> (r: Option<u32>)
    ensures
        r matches Some(id) ==> first_free(m@, start as int, id as int),
        r is None ==> none_free(m@, start as int),
{
    let mut id = start;
    while id < u32::MAX
        invariant
            start <= id <= u32::MAX,
            forall|j: int| start <= j < id ==> #[trigger] m@.contains_key(j as u32),
        decreases u32::MAX - id,
    {
        if !m.contains_key(&id) {
            return Some(id);
        }
        id = id + 1;
    }
    None
}

impl Database {
    pub closed spec fn player_map(&self) -> Map<u32, Player> {
        self.players@
    }

    pub closed spec fn group_map(&self) -> Map<u32, Group> {
        self.groups@
    }

    pub closed spec fn event_map(&self) -> Map<u32, Event> {
        self.events@
    }

    pub closed spec fn match_map(&self) -> Map<u32, Match> {
        self.matches@
    }

    /// Every member of every group is a player.
    pub open spec fn wf(&self) -> bool {
        forall|g: u32| #[trigger] self.group_map().contains_key(g) ==> self.group_map()[g].members().subset_of(
            self.player_map().dom(),
        )
    }

    /// An empty database.
    pub fn new() -> (r: Self)
        ensures
            r.wf(),
            r.player_map() == Map::<u32, Player>::empty(),
            r.group_map() == Map::<u32, Group>::empty(),
            r.event_map() == Map::<u32, Event>::empty(),
            r.match_map() == Map::<u32, Match>::empty(),
    {
        Database { players: HashMap::new(), groups: HashMap::new(), events: HashMap::new(), matches: HashMap::new() }
    }

    /// Adds a player under the first number from the player count on that no
    /// player uses; adds nothing when every such number is taken.
    pub fn add_player(&mut self, name: String, email: Option<Email>)
        requires
            old(self).wf(),
        ensures
            final(self).wf(),
            final(self).group_map() == old(self).group_map(),
            final(self).event_map() == old(self).event_map(),
            final(self).match_map() == old(self).match_map(),
            ({
                let start = count_start(old(self).player_map());
                ||| exists|id: int|
                    first_free(old(self).player_map(), start, id) && final(self).player_map() == old(self).player_map().insert(id as u32, Player { name, email })
                ||| none_free(old(self).player_map(), start) && final(self).player_map() == old(self).player_map()
            }),
    {
        let start = #[verifier::truncate] (self.players.len() as u32);
        match find_free(&self.players, start) {
            Some(id) => {
                self.players.insert(id, Player { name, email });
                proof {
                    assert(first_free(old(self).player_map(), start as int, id as int));
                    assert forall|g: u32| #[trigger] self.group_map().contains_key(g) implies self.group_map()[g].members().subset_of(
                        self.player_map().dom(),
                    ) by {
                        assert(old(self).group_map()[g].members().subset_of(old(self).player_map().dom()));
                    }
                }
            },
            None => {},
        }
    }

    /// The players with their numbers, each once, in no particular order.
    pub fn get_players(&self) -> (r: Vec<(&u32, &Player)>)
        ensures
            lists_map(r@, self.player_map()),
    {
        entries(&self.players)
    }

    /// The player with number `id`, if any.
    pub fn get_player(&self, id: u32) -> (r: Option<&Player>)
        ensures
            r matches Some(p) ==> self.player_map().contains_key(id) && self.player_map()[id] == *p,
            r is None ==> !self.player_map().contains_key(id),
    {
        self.players.get(&id)
    }

    /// Whether a player has number `id`.
    pub fn contains_player(&self, id: u32) -> (r: bool)
        ensures
            r == self.player_map().contains_key(id),
    {
        self.players.contains_key(&id)
    }
}

/// Whether `r` lists the entries of `m`, each once.
pub open spec fn lists_map<V>(r: Seq<(&u32, &V)>, m: Map<u32, V>) -> bool {
    &&& r.len() == m.len()
    &&& forall|i: int| 0 <= i < r.len() ==> m.contains_key(*r[i].0) && m[*r[i].0] == *r[i].1
    &&& forall|k: u32| #[trigger] m.contains_key(k) ==> exists|i: int| 0 <= i < r.len() && *r[i].0 == k
}

/// The entries of `m`, each once, in the order the map walks them.
fn entries<V>(m: &HashMap<u32, V>) -> (r: Vec<(&u32, &V)>)
    ensures
        lists_map(r@, m@),
{
    let mut out: Vec<(&u32, &V)> = Vec::new();
    for kv in it: m.iter()
        invariant
            out@ == it.seq().take(it.index() as int),
    {
        out.push(kv);
        proof {
            assert(out@ =~= it.seq().take(it.index() + 1));
        }
    }
    proof {
        let rem = vstd::std_specs::hash::spec_hash_map_iter(m).remaining();
        assert(out@ =~= rem);
        assert forall|k: u32| #[trigger] m@.contains_key(k) implies exists|i: int| 0 <= i < out@.len() && *out@[i].0 == k by {
            assert(rem.contains((&k, &m@[k])));
            let i = choose|i: int| 0 <= i < rem.len() && rem[i] == (&k, &m@[k]);
            assert(*out@[i].0 == k);
        }
    }
    out
}

/// The numbers that `m` uses, each once, in the order the map walks them.
fn key_list<V>(m: &HashMap<u32, V>) -> (r: Vec<u32>)
    ensures
        r@.to_set() == m@.dom(),
        r@.no_duplicates(),
{
    let mut out: Vec<u32> = Vec::new();
    for k in it: m.keys()
        invariant
            out@ == it.seq().take(it.index() as int).unref(),
    {
        out.push(*k);
        proof {
            assert(out@ =~= it.seq().take(it.index() + 1).unref());
        }
    }
    proof {
        let rem = vstd::std_specs::hash::spec_keys_iter(m).remaining();
        assert(out@ =~= rem.unref());
    }
    out
}

/// Where the search for a free number starts: the number of entries, cut to
/// 32 bits.
pub open spec fn count_start<V>(m: Map<u32, V>) -> int {
    (m.len() as u32) as int
}

/// Whether some number from `start` on, the largest `u32` included, is unused.
pub open spec fn has_unused<V>(m: Map<u32, V>, start: int) -> bool {
    exists|j: int| start <= j <= u32::MAX && !#[trigger] m.contains_key(j as u32)
}

/// The groups of `g2` are those of `g` with `player` taken out of the groups
/// listed in `done`.
pub open spec fn removed_from(g: Map<u32, Group>, g2: Map<u32, Group>, player: u32, done: Set<u32>) -> bool {
    &&& g2.dom() == g.dom()
    &&& forall|k: u32|
        #[trigger] g2.contains_key(k) ==> g2[k].name_view() == g[k].name_view() && g2[k].members() == if done.contains(k) {
            g[k].members().remove(player)
        } else {
            g[k].members()
        }
}

/// Well-formedness is kept when the groups stay and no player leaves.
proof fn lemma_wf_frame(a: &Database, b: &Database)
    requires
        a.wf(),
        a.player_map().dom().subset_of(b.player_map().dom()),
        a.group_map() == b.group_map(),
    ensures
        b.wf(),
{
    assert forall|g: u32| #[trigger] b.group_map().contains_key(g) implies b.group_map()[g].members().subset_of(
        b.player_map().dom(),
    ) by {
        assert(a.group_map().contains_key(g));
    }
}

impl Database {
    /// Removes the player with number `id` and takes it out of every group;
    /// returns it, or `None` when no player has that number.
    pub fn remove_player(&mut self, id: u32) -> (r: Option<Player>)
        requires
            old(self).wf(),
        ensures
            final(self).wf(),
            final(self).player_map() == old(self).player_map().remove(id),
            r matches Some(p) ==> old(self).player_map().contains_key(id) && p == old(self).player_map()[id],
            r is None ==> !old(self).player_map().contains_key(id),
            r is Some ==> removed_from(old(self).group_map(), final(self).group_map(), id, old(self).group_map().dom()),
            r is None ==> final(self).group_map() == old(self).group_map(),
            final(self).event_map() == old(self).event_map(),
            final(self).match_map() == old(self).match_map(),
    {
        match self.players.remove(&id) {
            Some(player) => {
                let group_ids = key_list(&self.groups);
                let ghost g0 = self.groups@;
                let mut i: usize = 0;
                while i < group_ids.len()
                    invariant
                        i <= group_ids@.len(),
                        group_ids@.to_set() == g0.dom(),
                        group_ids@.no_duplicates(),
                        self.players@ == old(self).player_map().remove(id),
                        self.events@ == old(self).event_map(),
                        self.matches@ == old(self).match_map(),
                        g0 == old(self).group_map(),
                        removed_from(g0, self.groups@, id, group_ids@.take(i as int).to_set()),
                    decreases group_ids@.len() - i,
                {
                    let ghost before = self.groups@;
                    self.remove_player_from_group(group_ids[i], id);
                    proof {
                        let gid = group_ids@[i as int];
                        let d0 = group_ids@.take(i as int).to_set();
                        let d1 = group_ids@.take(i + 1).to_set();
                        assert(d1 =~= d0.insert(gid)) by {
                            assert(group_ids@.take(i + 1) =~= group_ids@.take(i as int).push(gid));
                            group_ids@.take(i as int).lemma_push_to_set_commute(gid);
                        }
                        assert(!d0.contains(gid)) by {
                            if d0.contains(gid) {
                                let j = choose|j: int| 0 <= j < i && group_ids@.take(i as int)[j] == gid;
                                assert(group_ids@[j] == group_ids@[i as int]);
                            }
                        }
                        assert(group_ids@.to_set().contains(gid));
                        assert forall|k: u32| #[trigger] self.groups@.contains_key(k) implies self.groups@[k].name_view() == g0[k].name_view()
                            && self.groups@[k].members() == if d1.contains(k) {
                                g0[k].members().remove(id)
                            } else {
                                g0[k].members()
                            } by {
                            if k == gid {
                                assert(before.contains_key(gid));
                            } else {
                                assert(before.contains_key(k));
                            }
                        }
                    }
                    i = i + 1;
                }
                proof {
                    assert(group_ids@.take(group_ids@.len() as int) =~= group_ids@);
                    assert forall|g: u32| #[trigger] self.group_map().contains_key(g) implies self.group_map()[g].members().subset_of(
                        self.player_map().dom(),
                    ) by {
                        assert(old(self).group_map().contains_key(g));
                        assert(old(self).group_map()[g].members().subset_of(old(self).player_map().dom()));
                    }
                }
                Some(player)
            },
            None => {
                proof {
                    assert(self.players@ =~= old(self).player_map());
                    lemma_wf_frame(&*old(self), &*self);
                }
                None
            },
        }
    }

    /// Renames the player with number `id`, if there is one.
    pub fn change_player_name(&mut self, id: u32, new_name: String)
        requires
            old(self).wf(),
        ensures
            final(self).wf(),
            old(self).player_map().contains_key(id) ==> final(self).player_map() == old(self).player_map().insert(
                id,
                Player { name: new_name, email: old(self).player_map()[id].email },
            ),
            !old(self).player_map().contains_key(id) ==> final(self).player_map() == old(self).player_map(),
            final(self).group_map() == old(self).group_map(),
            final(self).event_map() == old(self).event_map(),
            final(self).match_map() == old(self).match_map(),
    {
        match self.players.remove(&id) {
            Some(player) => {
                let Player { name: _, email } = player;
                self.players.insert(id, Player { name: new_name, email });
                proof {
                    assert(self.players@ =~= old(self).player_map().insert(id, Player { name: new_name, email: old(self).player_map()[id].email }));
                    lemma_wf_frame(&*old(self), &*self);
                }
            },
            None => {
                proof {
                    assert(self.players@ =~= old(self).player_map());
                    lemma_wf_frame(&*old(self), &*self);
                }
            },
        }
    }

    /// Changes the email address of the player with number `id`, if there is one.
    pub fn change_player_email(&mut self, id: u32, new_email: Option<Email>)
        requires
            old(self).wf(),
        ensures
            final(self).wf(),
            old(self).player_map().contains_key(id) ==> final(self).player_map() == old(self).player_map().insert(
                id,
                Player { name: old(self).player_map()[id].name, email: new_email },
            ),
            !old(self).player_map().contains_key(id) ==> final(self).player_map() == old(self).player_map(),
            final(self).group_map() == old(self).group_map(),
            final(self).event_map() == old(self).event_map(),
            final(self).match_map() == old(self).match_map(),
    {
        match self.players.remove(&id) {
            Some(player) => {
                let Player { name, email: _ } = player;
                self.players.insert(id, Player { name, email: new_email });
                proof {
                    assert(self.players@ =~= old(self).player_map().insert(id, Player { name: old(self).player_map()[id].name, email: new_email }));
                    lemma_wf_frame(&*old(self), &*self);
                }
            },
            None => {
                proof {
                    assert(self.players@ =~= old(self).player_map());
                    lemma_wf_frame(&*old(self), &*self);
                }
            },
        }
    }

    /// Adds an empty group under the first number from the group count on that
    /// no group uses, and returns the number.
    pub fn add_group(&mut self, name: String) -> (r: u32)
        requires
            old(self).wf(),
            !none_free(old(self).group_map(), count_start(old(self).group_map())),
        ensures
            final(self).wf(),
            first_free(old(self).group_map(), count_start(old(self).group_map()), r as int),
            final(self).group_map().dom() == old(self).group_map().dom().insert(r),
            final(self).group_map()[r].name_view() == name@,
            final(self).group_map()[r].members() == Set::<u32>::empty(),
            forall|k: u32| k != r && #[trigger] old(self).group_map().contains_key(k) ==> final(self).group_map()[k] == old(self).group_map()[k],
            final(self).player_map() == old(self).player_map(),
            final(self).event_map() == old(self).event_map(),
            final(self).match_map() == old(self).match_map(),
    {
        let start = #[verifier::truncate] (self.groups.len() as u32);
        match find_free(&self.groups, start) {
            Some(id) => {
                self.groups.insert(id, Group { name, players: HashSet::new() });
                proof {
                    assert forall|g: u32| #[trigger] self.group_map().contains_key(g) implies self.group_map()[g].members().subset_of(
                        self.player_map().dom(),
                    ) by {
                        if g != id {
                            assert(old(self).group_map()[g].members().subset_of(old(self).player_map().dom()));
                        }
                    }
                }
                id
            },
            None => {
                proof {
                    assert(false);
                }
                0
            },
        }
    }

    /// Removes the group with number `id`; returns it, or `None` when no group
    /// has that number.
    pub fn remove_group(&mut self, id: u32) -> (r: Option<Group>)
        requires
            old(self).wf(),
        ensures
            final(self).wf(),
            final(self).group_map() == old(self).group_map().remove(id),
            r matches Some(g) ==> old(self).group_map().contains_key(id) && g == old(self).group_map()[id],
            r is None ==> !old(self).group_map().contains_key(id),
            final(self).player_map() == old(self).player_map(),
            final(self).event_map() == old(self).event_map(),
            final(self).match_map() == old(self).match_map(),
    {
        let r = self.groups.remove(&id);
        proof {
            assert forall|g: u32| #[trigger] self.group_map().contains_key(g) implies self.group_map()[g].members().subset_of(
                self.player_map().dom(),
            ) by {
                assert(old(self).group_map()[g].members().subset_of(old(self).player_map().dom()));
            }
        }
        r
    }

    /// The groups with their numbers, each once, in no particular order.
    pub fn get_groups(&self) -> (r: Vec<(&u32, &Group)>)
        ensures
            lists_map(r@, self.group_map()),
    {
        entries(&self.groups)
    }

    /// The group with number `id`, if any.
    pub fn get_group(&self, id: u32) -> (r: Option<&Group>)
        ensures
            r matches Some(g) ==> self.group_map().contains_key(id) && self.group_map()[id] == *g,
            r is None ==> !self.group_map().contains_key(id),
    {
        self.groups.get(&id)
    }

    /// Adds the player with number `player_id` to the group with number
    /// `group_id`, when both exist.
    pub fn add_player_to_group(&mut self, group_id: u32, player_id: u32)
        requires
            old(self).wf(),
        ensures
            final(self).wf(),
            final(self).group_map().dom() == old(self).group_map().dom(),
            forall|k: u32|
                #[trigger] final(self).group_map().contains_key(k) ==> final(self).group_map()[k].name_view() == old(self).group_map()[k].name_view() && final(self).group_map()[k].members() == if k == group_id
                    && old(self).player_map().contains_key(player_id) {
                    old(self).group_map()[k].members().insert(player_id)
                } else {
                    old(self).group_map()[k].members()
                },
            final(self).player_map() == old(self).player_map(),
            final(self).event_map() == old(self).event_map(),
            final(self).match_map() == old(self).match_map(),
    {
        if self.players.contains_key(&player_id) {
            match self.groups.remove(&group_id) {
                Some(group) => {
                    let Group { name, mut players } = group;
                    players.insert(player_id);
                    self.groups.insert(group_id, Group { name, players });
                    proof {
                        assert(self.groups@.dom() =~= old(self).group_map().dom());
                        assert forall|g: u32| #[trigger] self.group_map().contains_key(g) implies self.group_map()[g].members().subset_of(
                            self.player_map().dom(),
                        ) by {
                            assert(old(self).group_map()[g].members().subset_of(old(self).player_map().dom()));
                        }
                    }
                },
                None => {
                    proof {
                        assert(self.groups@ =~= old(self).group_map());
                        lemma_wf_frame(&*old(self), &*self);
                    }
                },
            }
        }
    }

    /// Takes the player with number `player_id` out of the group with number
    /// `group_id`, when the group exists.
    pub fn remove_player_from_group(&mut self, group_id: u32, player_id: u32)
        ensures
            old(self).wf() ==> final(self).wf(),
            final(self).group_map().dom() == old(self).group_map().dom(),
            forall|k: u32|
                #[trigger] final(self).group_map().contains_key(k) ==> final(self).group_map()[k].name_view() == old(self).group_map()[k].name_view() && final(self).group_map()[k].members() == if k == group_id {
                    old(self).group_map()[k].members().remove(player_id)
                } else {
                    old(self).group_map()[k].members()
                },
            final(self).player_map() == old(self).player_map(),
            final(self).event_map() == old(self).event_map(),
            final(self).match_map() == old(self).match_map(),
    {
        match self.groups.remove(&group_id) {
            Some(group) => {
                let Group { name, mut players } = group;
                players.remove(&player_id);
                self.groups.insert(group_id, Group { name, players });
                proof {
                    assert(self.groups@.dom() =~= old(self).group_map().dom());
                    if old(self).wf() {
                        assert forall|g: u32| #[trigger] self.group_map().contains_key(g) implies self.group_map()[g].members().subset_of(
                            self.player_map().dom(),
                        ) by {
                            assert(old(self).group_map()[g].members().subset_of(old(self).player_map().dom()));
                        }
                    }
                }
            },
            None => {
                proof {
                    assert(self.groups@ =~= old(self).group_map());
                }
            },
        }
    }

    /// Renames the group with number `group_id`, if there is one.
    pub fn change_group_name(&mut self, group_id: u32, new_name: String)
        requires
            old(self).wf(),
        ensures
            final(self).wf(),
            final(self).group_map().dom() == old(self).group_map().dom(),
            forall|k: u32|
                #[trigger] final(self).group_map().contains_key(k) ==> final(self).group_map()[k].members() == old(self).group_map()[k].members() && final(self).group_map()[k].name_view() == if k == group_id {
                    new_name@
                } else {
                    old(self).group_map()[k].name_view()
                },
            final(self).player_map() == old(self).player_map(),
            final(self).event_map() == old(self).event_map(),
            final(self).match_map() == old(self).match_map(),
    {
        match self.groups.remove(&group_id) {
            Some(group) => {
                let Group { name: _, players } = group;
                self.groups.insert(group_id, Group { name: new_name, players });
                proof {
                    assert(self.groups@.dom() =~= old(self).group_map().dom());
                    assert forall|g: u32| #[trigger] self.group_map().contains_key(g) implies self.group_map()[g].members().subset_of(
                        self.player_map().dom(),
                    ) by {
                        assert(old(self).group_map()[g].members().subset_of(old(self).player_map().dom()));
                    }
                }
            },
            None => {
                proof {
                    assert(self.groups@ =~= old(self).group_map());
                }
            },
        }
    }

    /// Adds an event with no match results under the first number from the
    /// event count on that no event uses; adds nothing when every such number
    /// is taken.
    pub fn add_event(&mut self, name: String, date: String, event_schedule: schedule::Schedule, players: Vec<u32>, tables: usize)
        requires
            old(self).wf(),
        ensures
            final(self).wf(),
            ({
                let start = count_start(old(self).event_map());
                ||| exists|id: int|
                    first_free(old(self).event_map(), start, id) && final(self).event_map().dom() == old(self).event_map().dom().insert(id as u32) && (forall|k: u32|
                        k != id && #[trigger] old(self).event_map().contains_key(k) ==> final(self).event_map()[k]
                            == old(self).event_map()[k])
                    && final(self).event_map()[id as u32].name == name && final(self).event_map()[id as u32].date == date
                    && final(self).event_map()[id as u32].schedule == event_schedule
                    && final(self).event_map()[id as u32].players == players
                    && final(self).event_map()[id as u32].matches@.len() == 0
                    && final(self).event_map()[id as u32].tables == tables
                ||| none_free(old(self).event_map(), start) && final(self).event_map() == old(self).event_map()
            }),
            final(self).player_map() == old(self).player_map(),
            final(self).group_map() == old(self).group_map(),
            final(self).match_map() == old(self).match_map(),
    {
        match Event::from(name, date, event_schedule, players, tables) {
            Some(event) => {
                let start = #[verifier::truncate] (self.events.len() as u32);
                match find_free(&self.events, start) {
                    Some(id) => {
                        self.events.insert(id, event);
                        proof {
                            assert(first_free(old(self).event_map(), start as int, id as int));
                            assert(self.events@.dom() =~= old(self).event_map().dom().insert(id));
                            lemma_wf_frame(&*old(self), &*self);
                        }
                    },
                    None => {},
                }
            },
            None => {},
        }
    }

    /// The events with their numbers, each once, in no particular order.
    pub fn get_events(&self) -> (r: Vec<(&u32, &Event)>)
        ensures
            lists_map(r@, self.event_map()),
    {
        entries(&self.events)
    }

    /// The event with number `id`, if any.
    pub fn get_event(&self, id: u32) -> (r: Option<&Event>)
        ensures
            r matches Some(e) ==> self.event_map().contains_key(id) && self.event_map()[id] == *e,
            r is None ==> !self.event_map().contains_key(id),
    {
        self.events.get(&id)
    }

    /// Removes the event with number `event_id`, if there is one.
    pub fn remove_event(&mut self, event_id: u32)
        requires
            old(self).wf(),
        ensures
            final(self).wf(),
            final(self).event_map() == old(self).event_map().remove(event_id),
            final(self).player_map() == old(self).player_map(),
            final(self).group_map() == old(self).group_map(),
            final(self).match_map() == old(self).match_map(),
    {
        self.events.remove(&event_id);
        proof {
            lemma_wf_frame(&*old(self), &*self);
        }
    }

    /// Adds a match with the scores `scores` under the first number from the
    /// match count on that no match uses, and returns the number.
    pub fn add_match(&mut self, scores: Vec<usize>) -> (r: u32)
        requires
            old(self).wf(),
            has_unused(old(self).match_map(), count_start(old(self).match_map())),
        ensures
            final(self).wf(),
            ({
                let start = count_start(old(self).match_map());
                &&& start <= r
                &&& !old(self).match_map().contains_key(r)
                &&& forall|j: int| start <= j < r ==> #[trigger] old(self).match_map().contains_key(j as u32)
            }),
            final(self).match_map() == old(self).match_map().insert(r, Match { s: scores }),
            final(self).player_map() == old(self).player_map(),
            final(self).group_map() == old(self).group_map(),
            final(self).event_map() == old(self).event_map(),
    {
        let current_match = Match { s: scores };
        let start = #[verifier::truncate] (self.matches.len() as u32);
        let mut id = start;
        while self.matches.contains_key(&id)
            invariant
                start <= id,
                self.matches@ == old(self).match_map(),
                has_unused(old(self).match_map(), start as int),
                forall|j: int| start <= j < id ==> #[trigger] old(self).match_map().contains_key(j as u32),
            decreases u32::MAX - id,
        {
            proof {
                if id == u32::MAX {
                    let j = choose|j: int| start <= j <= u32::MAX && !#[trigger] old(self).match_map().contains_key(j as u32);
                    if j < id {
                        assert(old(self).match_map().contains_key(j as u32));
                    }
                }
            }
            id = id + 1;
        }
        self.matches.insert(id, current_match);
        proof {
            lemma_wf_frame(&*old(self), &*self);
        }
        id
    }

    /// Sets the matches of the event with number `id`, if there is one.
    pub fn set_matches(&mut self, id: u32, matches: Vec<Vec<u32>>)
        requires
            old(self).wf(),
        ensures
            final(self).wf(),
            final(self).event_map().dom() == old(self).event_map().dom(),
            forall|k: u32|
                #[trigger] final(self).event_map().contains_key(k) && k != id ==> final(self).event_map()[k] == old(self).event_map()[k],
            old(self).event_map().contains_key(id) ==> final(self).event_map()[id].matches == matches
                && final(self).event_map()[id].name == old(self).event_map()[id].name
                && final(self).event_map()[id].date == old(self).event_map()[id].date
                && final(self).event_map()[id].schedule == old(self).event_map()[id].schedule
                && final(self).event_map()[id].players == old(self).event_map()[id].players
                && final(self).event_map()[id].tables == old(self).event_map()[id].tables,
            final(self).player_map() == old(self).player_map(),
            final(self).group_map() == old(self).group_map(),
            final(self).match_map() == old(self).match_map(),
    {
        match self.events.remove(&id) {
            Some(event) => {
                let Event { name, date, schedule, players, matches: _, tables } = event;
                self.events.insert(id, Event { name, date, schedule, players, matches, tables });
                proof {
                    assert(self.events@.dom() =~= old(self).event_map().dom());
                    lemma_wf_frame(&*old(self), &*self);
                }
            },
            None => {
                proof {
                    assert(self.events@ =~= old(self).event_map());
                    lemma_wf_frame(&*old(self), &*self);
                }
            },
        }
    }

    /// The match with number `id`, if any.
    pub fn get_match(&self, id: u32) -> (r: Option<&Match>)
        ensures
            r matches Some(m) ==> self.match_map().contains_key(id) && self.match_map()[id] == *m,
            r is None ==> !self.match_map().contains_key(id),
    {
        self.matches.get(&id)
    }
}

} // verus!
