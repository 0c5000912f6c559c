//! A JSON document in memory.

use vstd::prelude::*;

use vstd::string::StringExecFns;

verus! {

/// A JSON value. A floating-point number is kept as the bits of its IEEE 754
/// double.
#[derive(Debug)]
pub enum Json {
    Null,
    Bool(bool),
    Int(i128),
    Double(u64),
    Text(String),
    List(Vec<Json>),
    Object(Vec<(String, Json)>),
}

/// What a JSON value says. An object is its members, in the order in which they
/// were written.
pub enum JsonView {
    Null,
    Bool(bool),
    Int(int),
    Double(u64),
    Text(Seq<char>),
    List(Seq<JsonView>),
    Object(Seq<(Seq<char>, JsonView)>),
}

impl View for Json {
    type V = JsonView;

    open spec fn view(&self) -> JsonView
        decreases self,
    {
        match self {
            Json::Null => JsonView::Null,
            Json::Bool(b) => JsonView::Bool(*b),
            Json::Int(n) => JsonView::Int(*n as int),
            Json::Double(d) => JsonView::Double(*d),
            Json::Text(t) => JsonView::Text(t@),
            Json::List(items) => JsonView::List(
                Seq::new(
                    items@.len(),
                    |i: int|
                        if 0 <= i < items@.len() {
                            items@[i].view()
                        } else {
                            JsonView::Null
                        },
                ),
            ),
            Json::Object(members) => JsonView::Object(
                Seq::new(
                    members@.len(),
                    |i: int|
                        if 0 <= i < members@.len() {
                            (members@[i].0@, members@[i].1.view())
                        } else {
                            (Seq::empty(), JsonView::Null)
                        },
                ),
            ),
        }
    }
}

/// What a list of values says.
pub open spec fn items_view(items: Seq<Json>) -> Seq<JsonView> {
    Seq::new(items.len(), |i: int| items[i]@)
}

/// What a list of members says.
pub open spec fn members_view(members: Seq<(String, Json)>) -> Seq<(Seq<char>, JsonView)> {
    Seq::new(members.len(), |i: int| (members[i].0@, members[i].1@))
}

/// A text as a JSON value.
pub open spec fn text_view(text: Seq<char>) -> JsonView {
    JsonView::Text(text)
}

/// Members with one more: it takes the place of a member of the same name, and
/// stands behind the others where there is none.
pub open spec fn with_member(
    members: Seq<(Seq<char>, JsonView)>,
    name: Seq<char>,
    value: JsonView,
) -> Seq<(Seq<char>, JsonView)>
    decreases members.len(),
{
    if members.len() == 0 {
        seq![(name, value)]
    } else if members[0].0 == name {
        seq![(name, value)] + members.skip(1)
    } else {
        seq![members[0]] + with_member(members.skip(1), name, value)
    }
}

/// A name that is not there yet is put behind the others.
pub proof fn lemma_new_member(
    members: Seq<(Seq<char>, JsonView)>,
    name: Seq<char>,
    value: JsonView,
)
    requires
        forall|i: int| 0 <= i < members.len() ==> (#[trigger] members[i]).0 != name,
    ensures
        with_member(members, name, value) == members.push((name, value)),
    decreases members.len(),
{
    if members.len() > 0 {
        assert(members[0].0 != name);
        let rest = members.skip(1);
        assert forall|i: int| 0 <= i < rest.len() implies (#[trigger] rest[i]).0 != name by {
            assert(rest[i] == members[i + 1]);
        }
        lemma_new_member(rest, name, value);
        assert(seq![members[0]] + rest.push((name, value)) =~= members.push((name, value)));
    } else {
        assert(members.push((name, value)) =~= seq![(name, value)]);
    }
}

proof fn lemma_replaced_member(
    members: Seq<(Seq<char>, JsonView)>,
    name: Seq<char>,
    value: JsonView,
    n: int,
)
    requires
        0 <= n < members.len(),
        members[n].0 == name,
        forall|i: int| 0 <= i < n ==> (#[trigger] members[i]).0 != name,
    ensures
        with_member(members, name, value) == members.update(n, (name, value)),
    decreases members.len(),
{
    if n > 0 {
        assert(members[0].0 != name);
        let rest = members.skip(1);
        assert forall|i: int| 0 <= i < n - 1 implies (#[trigger] rest[i]).0 != name by {
            assert(rest[i] == members[i + 1]);
        }
        lemma_replaced_member(rest, name, value, n - 1);
        assert(seq![members[0]] + rest.update(n - 1, (name, value)) =~= members.update(
            n,
            (name, value),
        ));
    } else {
        assert(seq![(name, value)] + members.skip(1) =~= members.update(0, (name, value)));
    }
}

impl Json {
    pub fn text(text: &str) -> (value: Json)
        ensures
            value@ == text_view(text@),
    {
        Json::Text(String::from_str(text))
    }

    pub fn list(items: Vec<Json>) -> (value: Json)
        ensures
            value@ == JsonView::List(items_view(items@)),
    {
        let value = Json::List(items);
        proof {
            reveal_with_fuel(<Json as View>::view, 2);
            assert(value@->List_0 =~= items_view(items@));
        }
        value
    }

    pub fn object(members: Members) -> (value: Json)
        ensures
            value@ == JsonView::Object(members@),
    {
        let value = Json::Object(members.members);
        proof {
            reveal_with_fuel(<Json as View>::view, 2);
            assert(value@->Object_0 =~= members_view(members.members@));
        }
        value
    }
}

/// The members of an object that is being put together.
#[derive(Debug)]
pub struct Members {
    pub members: Vec<(String, Json)>,
}

impl View for Members {
    type V = Seq<(Seq<char>, JsonView)>;

    open spec fn view(&self) -> Seq<(Seq<char>, JsonView)> {
        members_view(self.members@)
    }
}

impl Members {
    pub fn new() -> (members: Members)
        ensures
            members@ == Seq::<(Seq<char>, JsonView)>::empty(),
    {
        let members = Members { members: Vec::new() };
        assert(members@ =~= Seq::<(Seq<char>, JsonView)>::empty());
        members
    }

    /// Adds a member, in place of one of the same name.
    pub fn insert(&mut self, name: &str, value: Json)
        ensures
            final(self)@ == with_member(old(self)@, name@, value@),
    {
        let ghost before = self@;
        let key = String::from_str(name);
        let mut i: usize = 0;
        while i < self.members.len()
            invariant
                i <= self.members@.len(),
                before == self@,
                *self == *old(self),
                key@ == name@,
                forall|k: int| 0 <= k < i ==> (#[trigger] before[k]).0 != name@,
            decreases self.members@.len() - i,
        {
            if self.members[i].0 == key {
                proof {
                    assert(before[i as int].0 == name@);
                    lemma_replaced_member(before, name@, value@, i as int);
                }
                self.members.set(i, (key, value));
                proof {
                    assert(self@ =~= before.update(i as int, (name@, value@)));
                }
                return ;
            }
            proof {
                assert(before[i as int].0 != name@);
            }
            i = i + 1;
        }
        proof {
            lemma_new_member(before, name@, value@);
        }
        self.members.push((key, value));
        proof {
            assert(self@ =~= before.push((name@, value@)));
        }
    }

    /// Adds a member whose name is known to be new.
    pub fn add(&mut self, name: &str, value: Json)
        ensures
            final(self)@ == old(self)@.push((name@, value@)),
    {
        let ghost before = self@;
        self.members.push((String::from_str(name), value));
        proof {
            assert(self@ =~= before.push((name@, value@)));
        }
    }
}

} // verus!
