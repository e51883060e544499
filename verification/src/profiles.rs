//! A collection of profiles, each under a name of its own.

use crate::config::ProfileConfig;
use crate::{config, text};
use vstd::prelude::*;

verus! {

/// Profiles by name. No name occurs twice, and each profile has an endpoint: its
/// own, or that of its protocol.
#[derive(Debug)]
pub struct Profiles {
    list: Vec<(String, ProfileConfig)>,
}

/// The names in the list.
spec fn names_in(list: Seq<(String, ProfileConfig)>) -> Seq<Seq<char>> {
    list.map_values(|p: (String, ProfileConfig)| p.0@)
}

/// The list as a map.
spec fn mapped(list: Seq<(String, ProfileConfig)>) -> Map<Seq<char>, ProfileConfig>
    decreases list.len(),
{
    if list.len() == 0 {
        Map::empty()
    } else {
        mapped(list.drop_last()).insert(list.last().0@, list.last().1)
    }
}

/// What is in the map is in the list, and nothing else.
proof fn lemma_mapped(list: Seq<(String, ProfileConfig)>)
    requires
        names_in(list).no_duplicates(),
    ensures
        forall|k: int|
            0 <= k < list.len() ==> mapped(list).dom().contains((#[trigger] list[k]).0@)
                && mapped(list)[list[k].0@] == list[k].1,
        forall|n: Seq<char>| #[trigger]
            mapped(list).dom().contains(n) <==> names_in(list).contains(n),
    decreases list.len(),
{
    if list.len() > 0 {
        let head = list.drop_last();
        let last = list.last();
        let names = names_in(list);
        assert(names_in(head) =~= names.drop_last());
        lemma_mapped(head);
        assert forall|k: int| 0 <= k < list.len() implies mapped(list).dom().contains(
            (#[trigger] list[k]).0@,
        ) && mapped(list)[list[k].0@] == list[k].1 by {
            if k < head.len() {
                assert(head[k] == list[k]);
                assert(names[k] == list[k].0@);
                assert(names[list.len() - 1] == last.0@);
            }
        }
        assert forall|n: Seq<char>| #[trigger]
            mapped(list).dom().contains(n) <==> names.contains(n) by {
            if names.contains(n) {
                let k = choose|k: int| 0 <= k < names.len() && names[k] == n;
                assert(list[k].0@ == n);
            }
            if mapped(list).dom().contains(n) {
                if n == last.0@ {
                    assert(names[list.len() - 1] == n);
                } else {
                    assert(mapped(head).dom().contains(n));
                    assert(names_in(head).contains(n));
                    let k = choose|k: int|
                        0 <= k < names_in(head).len() && names_in(head)[k] == n;
                    assert(names[k] == n);
                }
            }
        }
    }
}

impl View for Profiles {
    type V = Map<Seq<char>, ProfileConfig>;

    closed spec fn view(&self) -> Map<Seq<char>, ProfileConfig> {
        mapped(self.list@)
    }
}

impl Profiles {
    /// No name occurs twice, and each profile has an endpoint.
    #[verifier::type_invariant]
    spec fn sound(self) -> bool {
        &&& names_in(self.list@).no_duplicates()
        &&& forall|k: int|
            0 <= k < self.list@.len() ==> config::has_endpoint((#[trigger] self.list@[k]).1)
    }

    /// No profiles.
    pub fn new() -> (r: Self)
        ensures
            r@ == Map::<Seq<char>, ProfileConfig>::empty(),
    {
        Profiles { list: Vec::new() }
    }

    /// The place of the profile with that name.
    fn find(&self, name: &str) -> (r: Option<usize>)
        ensures
            match r {
                Some(k) => k < self.list@.len() && self.list@[k as int].0@ == name@,
                None => !names_in(self.list@).contains(name@),
            },
    {
        let ghost names = names_in(self.list@);
        let mut k: usize = 0;
        while k < self.list.len()
            invariant
                k <= self.list.len(),
                names == names_in(self.list@),
                forall|j: int| 0 <= j < k ==> #[trigger] names[j] != name@,
            decreases self.list.len() - k,
        {
            assert(names[k as int] == self.list@[k as int].0@);
            if text::same(self.list[k].0.as_str(), name) {
                return Some(k);
            }
            k += 1;
        }
        None
    }

    /// The profile with that name. It has an endpoint.
    pub fn get(&self, name: &str) -> (r: Option<&ProfileConfig>)
        ensures
            match r {
                Some(p) => {
                    &&& self@.dom().contains(name@)
                    &&& *p == self@[name@]
                    &&& config::has_endpoint(*p)
                },
                None => !self@.dom().contains(name@),
            },
    {
        proof {
            use_type_invariant(self);
            lemma_mapped(self.list@);
        }
        match self.find(name) {
            Some(k) => Some(&self.list[k].1),
            None => None,
        }
    }

    /// Puts a profile under a name, in the place of any that is there. `protocol` is
    /// what the configuration file calls the profile's protocol: the program to look
    /// for, where neither the profile nor the protocol has an endpoint.
    pub fn insert(&mut self, name: String, protocol: &str, profile: ProfileConfig)
        ensures
            final(self)@ == old(self)@.insert(name@, final(self)@[name@]),
            config::program_named(profile, protocol@, final(self)@[name@]),
    {
        let profile = profile.with_program(protocol);
        proof {
            use_type_invariant(&*self);
            lemma_mapped(self.list@);
        }
        let ghost before = self.list@;
        let ghost names = names_in(before);
        let found = self.find(name.as_str());
        let mut list: Vec<(String, ProfileConfig)> = Vec::new();
        std::mem::swap(&mut list, &mut self.list);
        let ghost entry = (name, profile);
        match found {
            Some(k) => {
                assert(names[k as int] == name@);
                list.set(k, (name, profile));
                assert(names_in(list@) =~= names);
            },
            None => {
                list.push((name, profile));
                assert(names_in(list@) =~= names.push(entry.0@));
            },
        }
        proof {
            lemma_mapped(list@);
            let m = mapped(list@);
            let wanted = mapped(before).insert(entry.0@, entry.1);
            assert forall|n: Seq<char>| m.dom().contains(n) == wanted.dom().contains(n) by {
                if names.contains(n) {
                    let j = choose|j: int| 0 <= j < names.len() && names[j] == n;
                    assert(names_in(list@)[j] == n);
                }
                if names_in(list@).contains(n) {
                    let j = choose|j: int|
                        0 <= j < names_in(list@).len() && names_in(list@)[j] == n;
                    if j < names.len() {
                        assert(names[j] == n);
                    }
                }
                let place = if found is Some {
                    found->0 as int
                } else {
                    before.len() as int
                };
                assert(names_in(list@)[place] == entry.0@);
            }
            assert forall|n: Seq<char>| m.dom().contains(n) implies m[n] == wanted[n] by {
                let j = choose|j: int| 0 <= j < names_in(list@).len() && names_in(list@)[j] == n;
                assert(list@[j].0@ == n);
                if n != entry.0@ {
                    assert(before[j] == list@[j]);
                } else {
                    let place = if found is Some {
                        found->0 as int
                    } else {
                        before.len() as int
                    };
                    assert(names_in(list@)[place] == names_in(list@)[j]);
                }
            }
            assert(m =~= wanted);
        }
        self.list = list;
    }

    /// The names of the profiles, sorted.
    pub fn names(&self) -> (r: Vec<String>)
        ensures
            text::sorted(text::texts(r@)),
            text::texts(r@).no_duplicates(),
            forall|n: Seq<char>| #[trigger]
                text::texts(r@).contains(n) <==> self@.dom().contains(n),
    {
        broadcast use vstd::seq_lib::group_to_multiset_ensures;

        proof {
            use_type_invariant(self);
            lemma_mapped(self.list@);
        }
        let ghost all = names_in(self.list@);
        let mut names: Vec<String> = Vec::new();
        let mut k: usize = 0;
        while k < self.list.len()
            invariant
                k <= self.list.len(),
                all == names_in(self.list@),
                text::texts(names@) == all.take(k as int),
            decreases self.list.len() - k,
        {
            let ghost before = text::texts(names@);
            let name = self.list[k].0.clone();
            let ghost n = name@;
            names.push(name);
            assert(text::texts(names@) =~= before.push(n));
            assert(all.take(k + 1) =~= all.take(k as int).push(n));
            k += 1;
        }
        assert(all.take(k as int) =~= all);
        let r = text::sort_texts(names);
        proof {
            let t = text::texts(r@);
            all.lemma_multiset_has_no_duplicates();
            t.lemma_multiset_has_no_duplicates_conv();
            assert forall|n: Seq<char>| #[trigger] t.contains(n) <==> all.contains(n) by {
                assert(t.contains(n) <==> t.to_multiset().count(n) > 0);
                assert(all.contains(n) <==> all.to_multiset().count(n) > 0);
            }
        }
        r
    }
}

} // verus!
