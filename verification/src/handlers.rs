//! The broker's per-client subscription state.
//!
//! A client listens to message names either exactly or by prefix: a name
//! registered as `*rest` subscribes to every name that starts with `rest`.
//! Names are handled as their UTF-8 bytes.
use vstd::prelude::*;

verus! {

/// The leading byte that marks a prefix subscription.
pub const PREFIX_MARK: u8 = 42;

/// What the broker does with an arriving message, by its name.
#[derive(Clone, Copy, PartialEq, Eq, Structural, Debug)]
pub enum ServerAction {
    /// Answer the client's heartbeat with one of the broker's own.
    RespondHeartbeat,
    /// Subscribe the client to the name carried in the payload.
    Listen,
    /// Withdraw such a subscription.
    Unlisten,
    /// The client is leaving; end the connection normally.
    Disconnect,
    /// Forward the message to every listening client.
    Broadcast,
}

/// The action a message name calls for; control names start with an
/// underscore, anything else is broadcast.
pub open spec fn classify_spec(name: Seq<char>) -> ServerAction {
    if name == "_Heartbeat"@ {
        ServerAction::RespondHeartbeat
    } else if name == "_Listen"@ {
        ServerAction::Listen
    } else if name == "_Unlisten"@ {
        ServerAction::Unlisten
    } else if name == "_Disconnect"@ {
        ServerAction::Disconnect
    } else {
        ServerAction::Broadcast
    }
}

/// The action a message name calls for; see [`classify_spec`].
pub fn classify_message(name: &String) -> (r: ServerAction)
    ensures
        r == classify_spec(name@),
{
    let heartbeat: String = "_Heartbeat".to_owned();
    let listen: String = "_Listen".to_owned();
    let unlisten: String = "_Unlisten".to_owned();
    let disconnect: String = "_Disconnect".to_owned();
    if *name == heartbeat {
        ServerAction::RespondHeartbeat
    } else if *name == listen {
        ServerAction::Listen
    } else if *name == unlisten {
        ServerAction::Unlisten
    } else if *name == disconnect {
        ServerAction::Disconnect
    } else {
        ServerAction::Broadcast
    }
}

/// Whether `p` is a prefix of `n`.
pub open spec fn is_prefix_of(p: Seq<u8>, n: Seq<u8>) -> bool {
    p.len() <= n.len() && n.subrange(0, p.len() as int) == p
}

/// The byte strings held in a list of names.
pub open spec fn names_set(s: Seq<Vec<u8>>) -> Set<Seq<u8>> {
    Set::new(|x: Seq<u8>| exists|i: int| 0 <= i < s.len() && s[i]@ == x)
}

/// Appending a name to a list adds exactly its bytes to the held set.
proof fn lemma_push_set(s: Seq<Vec<u8>>, v: Vec<u8>)
    ensures
        names_set(s.push(v)) == names_set(s).insert(v@),
{
    let t = s.push(v);
    assert forall|x: Seq<u8>| names_set(t).contains(x) implies names_set(s).insert(v@).contains(
        x,
    ) by {
        let i = choose|i: int| 0 <= i < t.len() && t[i]@ == x;
        if i < s.len() {
            assert(s[i]@ == x);
            assert(names_set(s).contains(x));
        } else {
            assert(x == v@);
        }
    }
    assert forall|x: Seq<u8>| names_set(s).insert(v@).contains(x) implies names_set(t).contains(
        x,
    ) by {
        if x == v@ {
            assert(t[s.len() as int]@ == x);
        } else {
            let i = choose|i: int| 0 <= i < s.len() && s[i]@ == x;
            assert(t[i]@ == x);
        }
    }
    assert(names_set(s.push(v)) =~= names_set(s).insert(v@));
}

/// Removing the one entry that holds some bytes removes exactly those
/// bytes from the held set.
proof fn lemma_remove_set(s: Seq<Vec<u8>>, i: int)
    requires
        0 <= i < s.len(),
        forall|j: int, k: int| 0 <= j < k < s.len() ==> s[j]@ != s[k]@,
    ensures
        names_set(s.remove(i)) == names_set(s).remove(s[i]@),
{
    let t = s.remove(i);
    assert forall|x: Seq<u8>| names_set(t).contains(x) implies names_set(s).remove(
        s[i]@,
    ).contains(x) by {
        let j = choose|j: int| 0 <= j < t.len() && t[j]@ == x;
        if j < i {
            assert(s[j]@ == x);
            assert(names_set(s).contains(x));
        } else {
            assert(s[j + 1]@ == x);
            assert(names_set(s).contains(x));
        }
    }
    assert forall|x: Seq<u8>| names_set(s).remove(s[i]@).contains(x) implies names_set(
        t,
    ).contains(x) by {
        let j = choose|j: int| 0 <= j < s.len() && s[j]@ == x;
        if j < i {
            assert(t[j]@ == x);
        } else {
            assert(j != i);
            assert(t[j - 1]@ == x);
        }
    }
    assert(names_set(s.remove(i)) =~= names_set(s).remove(s[i]@));
}

/// Whether two byte strings are equal.
fn bytes_eq(a: &Vec<u8>, b: &Vec<u8>) -> (r: bool)
    ensures
        r == (a@ == b@),
{
    if a.len() != b.len() {
        proof {
            assert(a@.len() != b@.len());
        }
        return false;
    }
    let mut i: usize = 0;
    while i < a.len()
        invariant
            0 <= i <= a.len(),
            a.len() == b.len(),
            forall|j: int| 0 <= j < i ==> a@[j] == b@[j],
        decreases a.len() - i,
    {
        if a[i] != b[i] {
            return false;
        }
        i += 1;
    }
    proof {
        assert(a@ =~= b@);
    }
    true
}

/// Whether `n` starts with `p`.
fn bytes_starts_with(n: &Vec<u8>, p: &Vec<u8>) -> (r: bool)
    ensures
        r == is_prefix_of(p@, n@),
{
    if p.len() > n.len() {
        return false;
    }
    let mut i: usize = 0;
    while i < p.len()
        invariant
            0 <= i <= p.len() <= n.len(),
            forall|j: int| 0 <= j < i ==> n@[j] == p@[j],
        decreases p.len() - i,
    {
        if n[i] != p[i] {
            proof {
                assert(n@.subrange(0, p@.len() as int)[i as int] != p@[i as int]);
            }
            return false;
        }
        i += 1;
    }
    proof {
        assert(n@.subrange(0, p@.len() as int) =~= p@);
    }
    true
}

/// Index of `name` in `names`, if present.
fn find_name(names: &Vec<Vec<u8>>, name: &Vec<u8>) -> (r: Option<usize>)
    ensures
        match r {
            Some(i) => i < names@.len() && names@[i as int]@ == name@,
            None => forall|j: int| 0 <= j < names@.len() ==> names@[j]@ != name@,
        },
{
    let mut i: usize = 0;
    while i < names.len()
        invariant
            0 <= i <= names.len(),
            forall|j: int| 0 <= j < i ==> names@[j]@ != name@,
        decreases names.len() - i,
    {
        if bytes_eq(&names[i], name) {
            return Some(i);
        }
        i += 1;
    }
    None
}

/// Which message names one client is subscribed to.
pub struct HandlerSet {
    pub exact_names: Vec<Vec<u8>>,
    pub prefix: Vec<Vec<u8>>,
}

impl HandlerSet {
    /// The set of exactly subscribed names.
    pub open spec fn exact_set(self) -> Set<Seq<u8>> {
        names_set(self.exact_names@)
    }

    /// The set of subscribed prefixes.
    pub open spec fn prefix_set(self) -> Set<Seq<u8>> {
        names_set(self.prefix@)
    }

    /// No name and no prefix is held twice.
    pub open spec fn wf(self) -> bool {
        &&& forall|i: int, j: int|
            0 <= i < j < self.exact_names@.len() ==> self.exact_names@[i]@
                != self.exact_names@[j]@
        &&& forall|i: int, j: int|
            0 <= i < j < self.prefix@.len() ==> self.prefix@[i]@ != self.prefix@[j]@
    }

    /// Whether a message of the given name is delivered to this client.
    pub open spec fn is_listening_spec(self, name: Seq<u8>) -> bool {
        self.exact_set().contains(name) || exists|p: Seq<u8>|
            #[trigger] self.prefix_set().contains(p) && is_prefix_of(p, name)
    }

    /// A set with no subscriptions.
    pub fn new() -> (r: HandlerSet)
        ensures
            r.wf(),
            r.exact_set() == Set::<Seq<u8>>::empty(),
            r.prefix_set() == Set::<Seq<u8>>::empty(),
    {
        let r = HandlerSet { exact_names: Vec::new(), prefix: Vec::new() };
        proof {
            assert(r.exact_set() =~= Set::<Seq<u8>>::empty());
            assert(r.prefix_set() =~= Set::<Seq<u8>>::empty());
        }
        r
    }

    /// Subscribes to `name`: a leading `*` registers the remainder as a
    /// prefix, anything else is an exact subscription.
    pub fn listen(&mut self, name: Vec<u8>)
        requires
            old(self).wf(),
        ensures
            final(self).wf(),
            name@.len() > 0 && name@[0] == PREFIX_MARK ==> final(self).prefix_set() == old(
                self,
            ).prefix_set().insert(name@.skip(1)) && final(self).exact_set() == old(
                self,
            ).exact_set(),
            !(name@.len() > 0 && name@[0] == PREFIX_MARK) ==> final(self).exact_set() == old(
                self,
            ).exact_set().insert(name@) && final(self).prefix_set() == old(self).prefix_set(),
    {
        if name.len() > 0 && name[0] == PREFIX_MARK {
            let rest = crate::codec::copy_range(&name, 1, name.len());
            proof {
                assert(rest@ =~= name@.skip(1));
            }
            let ghost old_prefix = self.prefix@;
            match find_name(&self.prefix, &rest) {
                None => {
                    self.prefix.push(rest);
                    proof {
                        let v = self.prefix@.last();
                        assert(self.prefix@ == old_prefix.push(v));
                        lemma_push_set(old_prefix, v);
                    }
                },
                Some(i) => {
                    proof {
                        assert(names_set(old_prefix).contains(old_prefix[i as int]@));
                        assert(final(self).prefix_set() =~= old(self).prefix_set().insert(rest@));
                    }
                },
            }
        } else {
            let ghost old_exact = self.exact_names@;
            let ghost n = name@;
            match find_name(&self.exact_names, &name) {
                None => {
                    self.exact_names.push(name);
                    proof {
                        let v = self.exact_names@.last();
                        assert(self.exact_names@ == old_exact.push(v));
                        lemma_push_set(old_exact, v);
                    }
                },
                Some(i) => {
                    proof {
                        assert(names_set(old_exact).contains(old_exact[i as int]@));
                        assert(final(self).exact_set() =~= old(self).exact_set().insert(n));
                    }
                },
            }
        }
    }

    /// Withdraws a subscription made by [`HandlerSet::listen`].
    pub fn unlisten(&mut self, name: Vec<u8>)
        requires
            old(self).wf(),
        ensures
            final(self).wf(),
            name@.len() > 0 && name@[0] == PREFIX_MARK ==> final(self).prefix_set() == old(
                self,
            ).prefix_set().remove(name@.skip(1)) && final(self).exact_set() == old(
                self,
            ).exact_set(),
            !(name@.len() > 0 && name@[0] == PREFIX_MARK) ==> final(self).exact_set() == old(
                self,
            ).exact_set().remove(name@) && final(self).prefix_set() == old(self).prefix_set(),
    {
        if name.len() > 0 && name[0] == PREFIX_MARK {
            let rest = crate::codec::copy_range(&name, 1, name.len());
            proof {
                assert(rest@ =~= name@.skip(1));
            }
            let ghost old_prefix = self.prefix@;
            match find_name(&self.prefix, &rest) {
                Some(i) => {
                    self.prefix.remove(i);
                    proof {
                        lemma_remove_set(old_prefix, i as int);
                    }
                },
                None => {
                    proof {
                        assert forall|x: Seq<u8>|
                            names_set(old_prefix).remove(rest@).contains(x) implies names_set(
                            old_prefix,
                        ).contains(x) by {}
                        assert forall|x: Seq<u8>| names_set(old_prefix).contains(x) implies
                            names_set(old_prefix).remove(rest@).contains(x) by {
                            let j = choose|j: int|
                                0 <= j < old_prefix.len() && old_prefix[j]@ == x;
                            assert(x != rest@);
                        }
                        assert(names_set(old_prefix).remove(rest@) =~= names_set(old_prefix));
                    }
                },
            }
        } else {
            let ghost old_exact = self.exact_names@;
            let ghost n = name@;
            match find_name(&self.exact_names, &name) {
                Some(i) => {
                    self.exact_names.remove(i);
                    proof {
                        lemma_remove_set(old_exact, i as int);
                    }
                },
                None => {
                    proof {
                        assert forall|x: Seq<u8>| names_set(old_exact).contains(x) implies
                            names_set(old_exact).remove(n).contains(x) by {
                            let j = choose|j: int| 0 <= j < old_exact.len() && old_exact[j]@ == x;
                            assert(x != n);
                        }
                        assert(names_set(old_exact).remove(n) =~= names_set(old_exact));
                    }
                },
            }
        }
    }

    /// Whether a message of the given name is delivered to this client;
    /// see [`HandlerSet::is_listening_spec`].
    pub fn is_listening(&self, name: &Vec<u8>) -> (r: bool)
        ensures
            r == self.is_listening_spec(name@),
    {
        match find_name(&self.exact_names, name) {
            Some(i) => {
                proof {
                    assert(names_set(self.exact_names@).contains(self.exact_names@[i as int]@));
                }
                return true;
            },
            None => {},
        }
        let mut i: usize = 0;
        while i < self.prefix.len()
            invariant
                0 <= i <= self.prefix.len(),
                forall|j: int| 0 <= j < i ==> !is_prefix_of(self.prefix@[j]@, name@),
            decreases self.prefix.len() - i,
        {
            if bytes_starts_with(name, &self.prefix[i]) {
                proof {
                    assert(self.prefix_set().contains(self.prefix@[i as int]@));
                }
                return true;
            }
            i += 1;
        }
        proof {
            assert(!self.exact_set().contains(name@));
            if exists|p: Seq<u8>|
                #[trigger] self.prefix_set().contains(p) && is_prefix_of(p, name@) {
                let p = choose|p: Seq<u8>|
                    #[trigger] self.prefix_set().contains(p) && is_prefix_of(p, name@);
                let j = choose|j: int| 0 <= j < self.prefix@.len() && self.prefix@[j]@ == p;
                assert(!is_prefix_of(self.prefix@[j]@, name@));
            }
        }
        false
    }
}

} // verus!
