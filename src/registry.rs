use vstd::prelude::*;

use crate::error::{MqttDeserializeError, MqttSerializeError, SchemaError, SchemaErrorView};
use crate::pattern::{
    equivalent, filter_of, lemma_equivalent_renamed, parts_collide, same_but_names, Part,
};
use crate::schema::{
    candidate, conforms, json_round_trips, layer_round_trips, lemma_candidate_round_trip,
    lemma_topic_layers_plain, literals_match, payload_bytes, schema_wf, topic_layers, values_view,
    FieldValue, Message, Schema, SchemaView,
};
use crate::topic::{lemma_split_pushed_all, pushed_all, split_layers, Topic};

verus! {

/// Shapes that can all be registered together: each well formed, no two
/// with equivalent patterns or with the same tag.
pub open spec fn registry_wf(reg: Seq<SchemaView>) -> bool {
    &&& forall|i: int| 0 <= i < reg.len() ==> schema_wf(#[trigger] reg[i])
    &&& forall|i: int, j: int|
        0 <= i < reg.len() && 0 <= j < reg.len() && i != j ==> (#[trigger] reg[i]).tag != (
        #[trigger] reg[j]).tag
    &&& forall|i: int, j: int|
        0 <= i < reg.len() && 0 <= j < reg.len() && i != j ==> !equivalent(
            #[trigger] reg[i].pattern,
            #[trigger] reg[j].pattern,
        )
}

/// The position of the first shape whose pattern is equivalent to `p`, or -1.
pub open spec fn first_collision(reg: Seq<SchemaView>, p: Seq<Part>) -> int
    decreases reg.len(),
{
    if reg.len() == 0 {
        -1
    } else {
        let k = first_collision(reg.drop_last(), p);
        if k >= 0 {
            k
        } else if equivalent(p, reg.last().pattern) {
            reg.len() - 1
        } else {
            -1
        }
    }
}

/// Among the first `n` shapes, the one that decoding picks: of those that
/// read the message, the one with the longest pattern, the first registered
/// among equals.
pub open spec fn best(reg: Seq<SchemaView>, ls: Seq<Seq<char>>, b: Seq<u8>, n: int) -> Option<int>
    decreases n,
{
    if n <= 0 {
        None
    } else {
        let prev = best(reg, ls, b, n - 1);
        if candidate(reg[n - 1], ls, b) is Some && (prev is None || reg[n - 1].pattern.len()
            > reg[prev->Some_0].pattern.len()) {
            Some(n - 1)
        } else {
            prev
        }
    }
}

/// Shape `a` comes before shape `b` in the dispatch order: its pattern is
/// longer, or as long and `a` was registered first.
pub open spec fn precedes(reg: Seq<SchemaView>, a: int, b: int) -> bool {
    reg[a].pattern.len() > reg[b].pattern.len() || (reg[a].pattern.len() == reg[b].pattern.len()
        && a < b)
}

/// `order` lists each of the shapes once, in dispatch order.
pub open spec fn is_dispatch_order(reg: Seq<SchemaView>, order: Seq<usize>) -> bool {
    &&& order.len() == reg.len()
    &&& forall|i: int| 0 <= i < order.len() ==> (#[trigger] order[i]) < reg.len()
    &&& forall|i: int, j: int|
        0 <= i < j < order.len() ==> precedes(reg, #[trigger] order[i] as int, #[trigger] order[j] as int)
}

/// The shape that decoding the topic layers `ls` and payload `b` picks.
pub open spec fn dispatch(reg: Seq<SchemaView>, ls: Seq<Seq<char>>, b: Seq<u8>) -> Option<int> {
    best(reg, ls, b, reg.len() as int)
}

/// The subscription filters of the shapes, without repeats, in order of
/// first appearance.
pub open spec fn dedup(s: Seq<Seq<char>>) -> Seq<Seq<char>>
    decreases s.len(),
{
    if s.len() == 0 {
        Seq::empty()
    } else {
        let d = dedup(s.drop_last());
        if d.contains(s.last()) {
            d
        } else {
            d.push(s.last())
        }
    }
}

pub open spec fn filters(reg: Seq<SchemaView>) -> Seq<Seq<char>> {
    reg.map_values(|s: SchemaView| filter_of(s.pattern))
}

/// The position of the first shape tagged `tag`, or -1.
pub open spec fn find_tag(reg: Seq<SchemaView>, tag: Seq<char>) -> int
    decreases reg.len(),
{
    if reg.len() == 0 {
        -1
    } else {
        let k = find_tag(reg.drop_last(), tag);
        if k >= 0 {
            k
        } else if reg.last().tag == tag {
            reg.len() - 1
        } else {
            -1
        }
    }
}

proof fn lemma_find_tag_prefix(reg: Seq<SchemaView>, tag: Seq<char>, m: int)
    requires
        0 <= m <= reg.len(),
        find_tag(reg.subrange(0, m), tag) >= 0,
    ensures
        find_tag(reg, tag) == find_tag(reg.subrange(0, m), tag),
    decreases reg.len() - m,
{
    if m < reg.len() {
        assert(reg.subrange(0, m + 1).drop_last() =~= reg.subrange(0, m));
        lemma_find_tag_prefix(reg, tag, m + 1);
    } else {
        assert(reg.subrange(0, m) =~= reg);
    }
}

/// Equivalence of patterns does not depend on the order of the two.
pub proof fn lemma_equivalent_symmetric(a: Seq<Part>, b: Seq<Part>)
    ensures
        equivalent(a, b) == equivalent(b, a),
{
    if equivalent(a, b) {
        assert forall|i: int| 0 <= i < b.len() implies parts_collide(#[trigger] b[i], a[i]) by {
            assert(parts_collide(a[i], b[i]));
        }
    }
    if equivalent(b, a) {
        assert forall|i: int| 0 <= i < a.len() implies parts_collide(#[trigger] a[i], b[i]) by {
            assert(parts_collide(b[i], a[i]));
        }
    }
}

/// A shape whose pattern is equivalent to that of a registered shape
/// collides, whatever the names of the fields: registering it is refused.
pub proof fn lemma_equivalent_refused(reg: Seq<SchemaView>, p: Seq<Part>, j: int)
    requires
        0 <= j < reg.len(),
        equivalent(p, reg[j].pattern),
    ensures
        0 <= first_collision(reg, p) <= j,
    decreases reg.len(),
{
    let d = reg.drop_last();
    if j < d.len() {
        assert(d[j] == reg[j]);
        lemma_equivalent_refused(d, p, j);
    } else {
        lemma_first_collision_range(d, p);
    }
}

/// Whether a shape collides, and with which registered shape, does not
/// depend on the names of parameters: renaming them in the new shape and in
/// the registered ones, keeping literals and positions, gives the same
/// outcome of registration.
pub proof fn lemma_collision_renamed(
    reg: Seq<SchemaView>,
    reg2: Seq<SchemaView>,
    p: Seq<Part>,
    p2: Seq<Part>,
)
    requires
        reg.len() == reg2.len(),
        forall|i: int| 0 <= i < reg.len() ==> same_but_names(#[trigger] reg[i].pattern, reg2[i].pattern),
        same_but_names(p, p2),
    ensures
        first_collision(reg, p) == first_collision(reg2, p2),
    decreases reg.len(),
{
    if reg.len() > 0 {
        let d = reg.drop_last();
        let d2 = reg2.drop_last();
        assert forall|i: int| 0 <= i < d.len() implies same_but_names(
            #[trigger] d[i].pattern,
            d2[i].pattern,
        ) by {
            assert(d[i] == reg[i] && d2[i] == reg2[i]);
        }
        lemma_collision_renamed(d, d2, p, p2);
        assert(same_but_names(reg[reg.len() - 1].pattern, reg2[reg.len() - 1].pattern));
        lemma_equivalent_renamed(p, p2, reg.last().pattern, reg2.last().pattern);
    }
}

proof fn lemma_first_collision_range(reg: Seq<SchemaView>, p: Seq<Part>)
    ensures
        -1 <= first_collision(reg, p) < reg.len(),
    decreases reg.len(),
{
    if reg.len() > 0 {
        lemma_first_collision_range(reg.drop_last(), p);
    }
}

proof fn lemma_first_collision_prefix(reg: Seq<SchemaView>, p: Seq<Part>, m: int)
    requires
        0 <= m <= reg.len(),
        first_collision(reg.subrange(0, m), p) >= 0,
    ensures
        first_collision(reg, p) == first_collision(reg.subrange(0, m), p),
    decreases reg.len() - m,
{
    if m < reg.len() {
        assert(reg.subrange(0, m + 1).drop_last() =~= reg.subrange(0, m));
        lemma_first_collision_prefix(reg, p, m + 1);
    } else {
        assert(reg.subrange(0, m) =~= reg);
    }
}

/// Decoding picks a shape that reads the message, and it comes before every
/// other shape that reads it in the dispatch order: none has a longer
/// pattern, nor an equally long one registered earlier. Decoding fails only
/// when no shape reads the message.
pub proof fn lemma_dispatch(reg: Seq<SchemaView>, ls: Seq<Seq<char>>, b: Seq<u8>, n: int)
    requires
        0 <= n <= reg.len(),
    ensures
        match best(reg, ls, b, n) {
            None => forall|j: int| 0 <= j < n ==> candidate(#[trigger] reg[j], ls, b) is None,
            Some(c) => {
                &&& 0 <= c < n
                &&& candidate(reg[c], ls, b) is Some
                &&& forall|j: int|
                    0 <= j < n && j != c && candidate(#[trigger] reg[j], ls, b) is Some ==> precedes(
                        reg,
                        c,
                        j,
                    )
            },
        },
    decreases n,
{
    if n > 0 {
        lemma_dispatch(reg, ls, b, n - 1);
    }
}

/// Encoding a value with one of the registered shapes and decoding the
/// result gives that shape and that value back. This holds where the shape's
/// pattern is not empty, each text field carried in the topic is a single
/// non-empty layer without `/`, and the JSON codec reads the payload back as
/// it wrote it.
pub proof fn lemma_round_trip(reg: Seq<SchemaView>, c: int, v: Seq<crate::schema::Value>)
    requires
        registry_wf(reg),
        0 <= c < reg.len(),
        conforms(reg[c], v),
        reg[c].pattern.len() > 0,
        forall|k: int|
            0 <= k < v.len() && reg[c].sources[k] is Segment ==> layer_round_trips(#[trigger] v[k]),
        reg[c].payload matches Some(k) ==> json_round_trips(reg[c].hook, v[k as int]),
        payload_bytes(reg[c], v) is Some,
    ensures
        ({
            let ls = split_layers(pushed_all(topic_layers(reg[c], v)));
            let b = payload_bytes(reg[c], v)->Some_0;
            &&& dispatch(reg, ls, b) == Some(c)
            &&& candidate(reg[c], ls, b) == Some(v)
        }),
{
    let s = reg[c];
    assert(schema_wf(s));
    let layers = topic_layers(s, v);
    let b = payload_bytes(s, v)->Some_0;
    lemma_topic_layers_plain(s, v);
    lemma_split_pushed_all(layers);
    lemma_candidate_round_trip(s, v);
    assert forall|j: int|
        0 <= j < reg.len() && j != c && candidate(#[trigger] reg[j], layers, b) is Some implies reg[j].pattern.len()
        < s.pattern.len() by {
        assert(literals_match(reg[j].pattern, layers));
        if reg[j].pattern.len() == s.pattern.len() {
            assert(!equivalent(reg[j].pattern, s.pattern));
            let i = choose|i: int|
                0 <= i < reg[j].pattern.len() && !parts_collide(reg[j].pattern[i], s.pattern[i]);
            assert(reg[j].pattern[i] is Lit);
            assert(layers[i] == s.pattern[i]->Lit_0);
        }
    }
    lemma_dispatch(reg, layers, b, reg.len() as int);
}

/// The registered shapes of one message type.
#[derive(Debug)]
pub struct Registry {
    schemas: Vec<Schema>,
}

impl View for Registry {
    type V = Seq<SchemaView>;

    closed spec fn view(&self) -> Seq<SchemaView> {
        self.schemas@.map_values(|s: Schema| s@)
    }
}

impl Registry {
    pub open spec fn wf(&self) -> bool {
        registry_wf(self@)
    }

    /// An empty registry.
    pub fn new() -> (r: Registry)
        ensures
            r@ == Seq::<SchemaView>::empty(),
            r.wf(),
    {
        let r = Registry { schemas: Vec::new() };
        assert(r@ =~= Seq::<SchemaView>::empty());
        r
    }

    /// The registered shapes, in order of registration.
    pub fn schemas(&self) -> (r: &Vec<Schema>)
        ensures
            r@.map_values(|s: Schema| s@) == self@,
    {
        &self.schemas
    }

    /// Register a shape. It is refused, and the registry left as it was, when
    /// its pattern is equivalent to that of a shape already registered; the
    /// error names the new shape's tag and that of the first such shape.
    pub fn register(&mut self, s: Schema) -> (r: Result<(), SchemaError>)
        requires
            old(self).wf(),
            s.wf(),
        ensures
            final(self).wf(),
            first_collision(old(self)@, s@.pattern) < 0 && find_tag(old(self)@, s@.tag) < 0 ==> r is Ok
                && final(self)@ == old(self)@.push(s@),
            first_collision(old(self)@, s@.pattern) < 0 && find_tag(old(self)@, s@.tag) >= 0 ==> {
                &&& r matches Err(e) && e@ == SchemaErrorView::DuplicateTag(s@.tag)
                &&& final(self)@ == old(self)@
            },
            first_collision(old(self)@, s@.pattern) >= 0 ==> {
                &&& r matches Err(e) && e@ == SchemaErrorView::AmbiguousTopic(
                    s@.tag,
                    old(self)@[first_collision(old(self)@, s@.pattern)].tag,
                )
                &&& final(self)@ == old(self)@
            },
    {
        let ghost reg = self@;
        let mut j: usize = 0;
        assert(reg.subrange(0, 0) =~= Seq::<SchemaView>::empty());
        while j < self.schemas.len()
            invariant
                reg == self@,
                registry_wf(reg),
                j <= self.schemas@.len(),
                first_collision(reg.subrange(0, j as int), s@.pattern) == -1,
            decreases self.schemas@.len() - j,
        {
            assert(reg[j as int] == self.schemas@[j as int]@);
            assert(reg.subrange(0, j + 1).drop_last() =~= reg.subrange(0, j as int));
            assert(reg.subrange(0, j + 1).last() == reg[j as int]);
            if s.pattern().equivalent_to(self.schemas[j].pattern()) {
                proof {
                    lemma_first_collision_prefix(reg, s@.pattern, j + 1);
                }
                return Err(
                    SchemaError::AmbiguousTopic(s.tag().clone(), self.schemas[j].tag().clone()),
                );
            }
            j = j + 1;
        }
        assert(reg.subrange(0, j as int) =~= reg);
        proof {
            lemma_no_collision(reg, s@.pattern);
        }
        let mut j: usize = 0;
        assert(reg.subrange(0, 0) =~= Seq::<SchemaView>::empty());
        while j < self.schemas.len()
            invariant
                reg == self@,
                registry_wf(reg),
                j <= self.schemas@.len(),
                first_collision(reg, s@.pattern) == -1,
                find_tag(reg.subrange(0, j as int), s@.tag) == -1,
            decreases self.schemas@.len() - j,
        {
            assert(reg[j as int] == self.schemas@[j as int]@);
            assert(reg.subrange(0, j + 1).drop_last() =~= reg.subrange(0, j as int));
            assert(reg.subrange(0, j + 1).last() == reg[j as int]);
            if *self.schemas[j].tag() == *s.tag() {
                proof {
                    lemma_find_tag_prefix(reg, s@.tag, j + 1);
                }
                return Err(SchemaError::DuplicateTag(s.tag().clone()));
            }
            j = j + 1;
        }
        assert(reg.subrange(0, j as int) =~= reg);
        proof {
            lemma_no_tag(reg, s@.tag);
        }
        self.schemas.push(s);
        assert(self@ =~= reg.push(s@));
        assert forall|a: int, b: int|
            0 <= a < self@.len() && 0 <= b < self@.len() && a != b implies !equivalent(
            #[trigger] self@[a].pattern,
            #[trigger] self@[b].pattern,
        ) by {
            if a == reg.len() {
                lemma_equivalent_symmetric(self@[a].pattern, self@[b].pattern);
                assert(self@[b] == reg[b]);
            } else if b == reg.len() {
                assert(self@[a] == reg[a]);
            } else {
                assert(self@[a] == reg[a] && self@[b] == reg[b]);
            }
        }
        assert forall|a: int, b: int|
            0 <= a < self@.len() && 0 <= b < self@.len() && a != b implies (#[trigger] self@[a]).tag
            != (#[trigger] self@[b]).tag by {
            if a < reg.len() {
                assert(self@[a] == reg[a]);
            }
            if b < reg.len() {
                assert(self@[b] == reg[b]);
            }
        }
        Ok(())
    }

    /// Decode a topic and payload: the shapes are tried longest pattern
    /// first, the earliest registered first among equals, and the first that
    /// reads the message gives it. When none does, the error is `Invalid`.
    pub fn decode(&self, topic: &Topic, payload: &[u8]) -> (r: Result<Message, MqttDeserializeError>)
        requires
            self.wf(),
        ensures
            ({
                let ls = split_layers(topic@);
                match dispatch(self@, ls, payload@) {
                    None => r == Err::<Message, MqttDeserializeError>(MqttDeserializeError::Invalid),
                    Some(c) => r matches Ok(m) && m.tag@ == self@[c].tag && Some(
                        values_view(m.values@),
                    ) == candidate(self@[c], ls, payload@),
                }
            }),
    {
        let ghost reg = self@;
        let layers = topic.layers();
        let ghost ls = layers.deep_view();
        let mut found: Option<(usize, Vec<FieldValue>)> = None;
        let mut j: usize = 0;
        while j < self.schemas.len()
            invariant
                reg == self@,
                registry_wf(reg),
                ls == layers.deep_view(),
                j <= self.schemas@.len(),
                match found {
                    None => best(reg, ls, payload@, j as int) is None,
                    Some((c, v)) => c < j && best(reg, ls, payload@, j as int) == Some(c as int) && Some(
                        values_view(v@),
                    ) == candidate(reg[c as int], ls, payload@),
                },
            decreases self.schemas@.len() - j,
        {
            assert(reg[j as int] == self.schemas@[j as int]@);
            assert(schema_wf(reg[j as int]));
            let s = &self.schemas[j];
            let better = match &found {
                None => true,
                Some((c, _)) => {
                    assert(reg[*c as int] == self.schemas@[*c as int]@);
                    s.pattern().len() > self.schemas[*c].pattern().len()
                },
            };
            if better {
                match s.try_decode(&layers, payload) {
                    Some(v) => {
                        found = Some((j, v));
                    },
                    None => {},
                }
            }
            j = j + 1;
        }
        match found {
            None => Err(MqttDeserializeError::Invalid),
            Some((c, v)) => {
                assert(reg[c as int] == self.schemas@[c as int]@);
                Ok(Message { tag: self.schemas[c].tag().clone(), values: v })
            },
        }
    }

    /// Encode a message with the first registered shape of its tag: its topic
    /// and payload. Refused when no shape has the tag or the values do not fit
    /// that shape; otherwise only the payload codec can fail.
    pub fn encode(&self, msg: &Message) -> (r: Result<(Topic, Vec<u8>), MqttSerializeError>)
        requires
            self.wf(),
        ensures
            ({
                let c = find_tag(self@, msg.tag@);
                let v = values_view(msg.values@);
                if c < 0 || !conforms(self@[c], v) {
                    r == Err::<(Topic, Vec<u8>), MqttSerializeError>(
                        MqttSerializeError::UnknownShape,
                    )
                } else {
                    &&& (r is Ok <==> payload_bytes(self@[c], v) is Some)
                    &&& r is Err ==> r == Err::<(Topic, Vec<u8>), MqttSerializeError>(
                        MqttSerializeError::Codec,
                    )
                    &&& r matches Ok((t, b)) ==> {
                        &&& t@ == pushed_all(topic_layers(self@[c], v))
                        &&& Some(b@) == payload_bytes(self@[c], v)
                    }
                }
            }),
    {
        let ghost reg = self@;
        let mut j: usize = 0;
        assert(reg.subrange(0, 0) =~= Seq::<SchemaView>::empty());
        while j < self.schemas.len()
            invariant
                reg == self@,
                registry_wf(reg),
                j <= self.schemas@.len(),
                find_tag(reg.subrange(0, j as int), msg.tag@) == -1,
            decreases self.schemas@.len() - j,
        {
            assert(reg[j as int] == self.schemas@[j as int]@);
            assert(reg.subrange(0, j + 1).drop_last() =~= reg.subrange(0, j as int));
            assert(reg.subrange(0, j + 1).last() == reg[j as int]);
            let s = &self.schemas[j];
            if *s.tag() == msg.tag {
                proof {
                    lemma_find_tag_prefix(reg, msg.tag@, j + 1);
                }
                assert(schema_wf(reg[j as int]));
                if !s.accepts(&msg.values) {
                    return Err(MqttSerializeError::UnknownShape);
                }
                return s.encode(&msg.values);
            }
            j = j + 1;
        }
        assert(reg.subrange(0, j as int) =~= reg);
        Err(MqttSerializeError::UnknownShape)
    }

    /// The order in which decoding tries the shapes: longest pattern first,
    /// in order of registration among equally long ones.
    pub fn dispatch_order(&self) -> (r: Vec<usize>)
        ensures
            is_dispatch_order(self@, r@),
    {
        let ghost reg = self@;
        let n = self.schemas.len();
        let mut out: Vec<usize> = Vec::new();
        let mut j: usize = 0;
        while j < n
            invariant
                reg == self@,
                n == reg.len(),
                j <= n,
                out@.len() == j,
                forall|i: int| 0 <= i < out@.len() ==> (#[trigger] out@[i]) < j,
                forall|a: int, b: int|
                    0 <= a < b < out@.len() ==> precedes(
                        reg,
                        #[trigger] out@[a] as int,
                        #[trigger] out@[b] as int,
                    ),
            decreases n - j,
        {
            assert(reg[j as int] == self.schemas@[j as int]@);
            let len_j = self.schemas[j].pattern().len();
            let mut p: usize = 0;
            while p < out.len()
                invariant
                    reg == self@,
                    n == reg.len(),
                    j < n,
                    len_j == reg[j as int].pattern.len(),
                    p <= out@.len(),
                    forall|i: int| 0 <= i < out@.len() ==> (#[trigger] out@[i]) < j,
                    forall|q: int|
                        0 <= q < p ==> reg[(#[trigger] out@[q]) as int].pattern.len() >= len_j,
                ensures
                    p <= out@.len(),
                    forall|q: int|
                        0 <= q < p ==> reg[(#[trigger] out@[q]) as int].pattern.len() >= len_j,
                    p < out@.len() ==> reg[out@[p as int] as int].pattern.len() < len_j,
                decreases out@.len() - p,
            {
                let o = out[p];
                assert(reg[o as int] == self.schemas@[o as int]@);
                if self.schemas[o].pattern().len() < len_j {
                    break;
                }
                p = p + 1;
            }
            let ghost before = out@;
            out.insert(p, j);
            assert forall|a: int, b: int|
                0 <= a < b < out@.len() implies precedes(
                reg,
                #[trigger] out@[a] as int,
                #[trigger] out@[b] as int,
            ) by {
                if b < p {
                    assert(out@[a] == before[a] && out@[b] == before[b]);
                } else if b == p {
                    assert(out@[a] == before[a]);
                    assert(out@[b] == j);
                    assert(reg[before[a] as int].pattern.len() >= len_j);
                    assert(before[a] < j);
                } else if a == p {
                    assert(out@[a] == j);
                    assert(out@[b] == before[b - 1]);
                    if b - 1 > p {
                        assert(precedes(reg, before[p as int] as int, before[b - 1] as int));
                    }
                    assert(reg[before[b - 1] as int].pattern.len() < len_j);
                } else if a < p {
                    assert(out@[a] == before[a] && out@[b] == before[b - 1]);
                } else {
                    assert(out@[a] == before[a - 1] && out@[b] == before[b - 1]);
                }
            }
            assert forall|i: int| 0 <= i < out@.len() implies (#[trigger] out@[i]) < j + 1 by {
                if i < p {
                    assert(out@[i] == before[i]);
                } else if i > p {
                    assert(out@[i] == before[i - 1]);
                }
            }
            j = j + 1;
        }
        out
    }

    /// The subscription filters of the registered shapes, without repeats,
    /// in order of registration.
    pub fn all_filter_strings(&self) -> (r: Vec<String>)
        ensures
            r.deep_view() == dedup(filters(self@)),
    {
        let ghost fs = filters(self@);
        let mut out: Vec<String> = Vec::new();
        let mut j: usize = 0;
        assert(fs.subrange(0, 0) =~= Seq::<Seq<char>>::empty());
        while j < self.schemas.len()
            invariant
                fs == filters(self@),
                j <= self.schemas@.len(),
                out.deep_view() == dedup(fs.subrange(0, j as int)),
            decreases self.schemas@.len() - j,
        {
            assert(fs[j as int] == filter_of(self.schemas@[j as int]@.pattern));
            let f = self.schemas[j].pattern().filter_string();
            assert(fs.subrange(0, j + 1).drop_last() =~= fs.subrange(0, j as int));
            assert(fs.subrange(0, j + 1).last() == f@);
            if !contains_text(&out, &f) {
                out.push(f);
                assert(out.deep_view() =~= dedup(fs.subrange(0, j + 1)));
            }
            j = j + 1;
        }
        assert(fs.subrange(0, j as int) =~= fs);
        out
    }
}

proof fn lemma_no_tag(reg: Seq<SchemaView>, tag: Seq<char>)
    requires
        find_tag(reg, tag) == -1,
    ensures
        forall|j: int| 0 <= j < reg.len() ==> (#[trigger] reg[j]).tag != tag,
    decreases reg.len(),
{
    if reg.len() > 0 {
        let d = reg.drop_last();
        lemma_no_tag(d, tag);
        assert forall|j: int| 0 <= j < reg.len() implies (#[trigger] reg[j]).tag != tag by {
            if j < d.len() {
                assert(reg[j] == d[j]);
            }
        }
    }
}

proof fn lemma_no_collision(reg: Seq<SchemaView>, p: Seq<Part>)
    requires
        first_collision(reg, p) == -1,
    ensures
        forall|j: int| 0 <= j < reg.len() ==> !equivalent(p, #[trigger] reg[j].pattern),
    decreases reg.len(),
{
    if reg.len() > 0 {
        let d = reg.drop_last();
        assert(first_collision(d, p) == -1);
        lemma_no_collision(d, p);
        assert forall|j: int| 0 <= j < reg.len() implies !equivalent(p, #[trigger] reg[j].pattern) by {
            if j < d.len() {
                assert(reg[j] == d[j]);
            }
        }
    }
}

/// Whether `t` is among the strings of `v`.
fn contains_text(v: &Vec<String>, t: &String) -> (r: bool)
    ensures
        r == v.deep_view().contains(t@),
{
    let mut i: usize = 0;
    while i < v.len()
        invariant
            i <= v@.len(),
            forall|k: int| 0 <= k < i ==> v.deep_view()[k] != t@,
        decreases v@.len() - i,
    {
        if v[i] == *t {
            assert(v.deep_view()[i as int] == t@);
            return true;
        }
        i = i + 1;
    }
    false
}

} // verus!
