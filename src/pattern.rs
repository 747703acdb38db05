use vstd::prelude::*;
use vstd::string::*;

use crate::error::SchemaError;
use crate::topic::{is_layer, pushed_all, split_layers, Topic};

verus! {

/// The mathematical form of a pattern segment.
pub enum Part {
    Lit(Seq<char>),
    Param(Seq<char>),
}

/// One segment of a topic pattern.
#[derive(Debug)]
pub enum Segment {
    /// A layer that must appear as it is.
    Literal(String),
    /// A layer that carries the value of the named field.
    Parameter(String),
}

impl View for Segment {
    type V = Part;

    open spec fn view(&self) -> Part {
        match self {
            Segment::Literal(t) => Part::Lit(t@),
            Segment::Parameter(n) => Part::Param(n@),
        }
    }
}

/// The segment that a layer of a pattern text stands for: `<name>` is a
/// parameter, anything else a literal.
pub open spec fn token_part(t: Seq<char>) -> Part {
    if t.len() >= 2 && t[0] == '<' && t.last() == '>' {
        Part::Param(t.subrange(1, t.len() - 1))
    } else {
        Part::Lit(t)
    }
}

/// The segments of a pattern text, or `None` where a layer is empty. An empty
/// text has no segments.
pub open spec fn parse_pattern(s: Seq<char>) -> Option<Seq<Part>> {
    if s.len() == 0 {
        Some(Seq::empty())
    } else if exists|i: int| 0 <= i < split_layers(s).len() && (#[trigger] split_layers(s)[i]).len()
        == 0 {
        None
    } else {
        Some(split_layers(s).map_values(|t: Seq<char>| token_part(t)))
    }
}

/// Two segments at one position collide unless both are literals with
/// different texts.
pub open spec fn parts_collide(a: Part, b: Part) -> bool {
    match (a, b) {
        (Part::Lit(x), Part::Lit(y)) => x == y,
        _ => true,
    }
}

/// Two patterns are equivalent when they have the same length and collide
/// at every position.
pub open spec fn equivalent(a: Seq<Part>, b: Seq<Part>) -> bool {
    a.len() == b.len() && forall|i: int| 0 <= i < a.len() ==> parts_collide(#[trigger] a[i], b[i])
}

/// Two patterns that differ at most in the names of their parameters.
pub open spec fn same_but_names(a: Seq<Part>, b: Seq<Part>) -> bool {
    &&& a.len() == b.len()
    &&& forall|i: int|
        0 <= i < a.len() ==> ((#[trigger] a[i] is Lit) <==> b[i] is Lit) && (a[i] is Lit ==> a[i]
            == b[i])
}

/// Renaming parameters does not change whether two patterns are equivalent.
pub proof fn lemma_equivalent_renamed(a: Seq<Part>, b: Seq<Part>, x: Seq<Part>, y: Seq<Part>)
    requires
        same_but_names(a, b),
        same_but_names(x, y),
    ensures
        equivalent(a, x) == equivalent(b, y),
{
    if a.len() == x.len() {
        assert forall|i: int| 0 <= i < a.len() implies parts_collide(#[trigger] a[i], x[i])
            == parts_collide(b[i], y[i]) by {
            assert(a[i] is Lit <==> b[i] is Lit);
            assert(x[i] is Lit <==> y[i] is Lit);
        }
        if equivalent(a, x) {
            assert forall|i: int| 0 <= i < b.len() implies parts_collide(#[trigger] b[i], y[i]) by {
                assert(parts_collide(a[i], x[i]));
            }
        }
        if equivalent(b, y) {
            assert forall|i: int| 0 <= i < a.len() implies parts_collide(#[trigger] a[i], x[i]) by {
                assert(parts_collide(b[i], y[i]));
            }
        }
    }
}

/// The layer that a segment becomes in a subscription filter.
pub open spec fn filter_layer(p: Part) -> Seq<char> {
    match p {
        Part::Lit(t) => t,
        Part::Param(_) => seq!['+'],
    }
}

/// A segment as parsing makes it: a literal is a single layer, a parameter
/// name holds no `/`.
pub open spec fn part_wf(p: Part) -> bool {
    match p {
        Part::Lit(t) => is_layer(t),
        Part::Param(n) => !n.contains('/'),
    }
}

/// The subscription filter of a pattern.
pub open spec fn filter_of(p: Seq<Part>) -> Seq<char> {
    pushed_all(p.map_values(|q: Part| filter_layer(q)))
}

/// A layer of a split text holds no `/`.
pub proof fn lemma_split_no_slash(s: Seq<char>)
    ensures
        forall|i: int|
            0 <= i < split_layers(s).len() ==> !(#[trigger] split_layers(s)[i]).contains('/'),
    decreases s.len(),
{
    if s.len() > 0 {
        let d = s.drop_last();
        lemma_split_no_slash(d);
        crate::topic::lemma_split_len(d);
        let p = split_layers(d);
        if s.last() != '/' {
            let l = p.last().push(s.last());
            assert(!l.contains('/')) by {
                if l.contains('/') {
                    let k = choose|k: int| 0 <= k < l.len() && l[k] == '/';
                    if k < l.len() - 1 {
                        assert(p.last()[k] == '/');
                        assert(p.last().contains('/'));
                        assert(p[p.len() - 1] == p.last());
                    }
                }
            }
            assert forall|i: int| 0 <= i < split_layers(s).len() implies !(
            #[trigger] split_layers(s)[i]).contains('/') by {
                if i < p.len() - 1 {
                    assert(split_layers(s)[i] == p[i]);
                }
            }
        } else {
            assert forall|i: int| 0 <= i < split_layers(s).len() implies !(
            #[trigger] split_layers(s)[i]).contains('/') by {
                if i < p.len() {
                    assert(split_layers(s)[i] == p[i]);
                } else {
                    assert(split_layers(s)[i] =~= Seq::<char>::empty());
                }
            }
        }
    }
}

/// A topic pattern: literal and parameter segments, in order.
#[derive(Debug)]
pub struct Pattern {
    parts: Vec<Segment>,
}

impl View for Pattern {
    type V = Seq<Part>;

    closed spec fn view(&self) -> Seq<Part> {
        self.parts@.map_values(|s: Segment| s@)
    }
}

impl Pattern {
    /// Every segment is as parsing makes it.
    pub open spec fn wf(&self) -> bool {
        forall|i: int| 0 <= i < self@.len() ==> part_wf(#[trigger] self@[i])
    }

    /// Parse a pattern text: layers split at `/`, `<name>` a parameter, any
    /// other layer a literal. An empty layer is refused.
    pub fn from_string(input: &str) -> (r: Result<Pattern, SchemaError>)
        ensures
            r is Ok <==> parse_pattern(input@) is Some,
            r matches Ok(p) ==> p@ == parse_pattern(input@)->Some_0 && p.wf(),
            r matches Err(e) ==> e is MalformedPattern,
    {
        let mut parts: Vec<Segment> = Vec::new();
        if input.unicode_len() == 0 {
            let p = Pattern { parts };
            assert(p@ =~= Seq::<Part>::empty());
            return Ok(p);
        }
        let layers = Topic::from_str(input).layers();
        let ghost toks = split_layers(input@);
        proof {
            lemma_split_no_slash(input@);
        }
        let mut i: usize = 0;
        while i < layers.len()
            invariant
                layers.deep_view() == toks,
                input@.len() > 0,
                toks == split_layers(input@),
                forall|k: int| 0 <= k < toks.len() ==> !(#[trigger] toks[k]).contains('/'),
                i <= layers.len(),
                parts@.len() == i,
                forall|k: int| 0 <= k < i ==> (#[trigger] toks[k]).len() > 0,
                forall|k: int| 0 <= k < i ==> (#[trigger] parts@[k])@ == token_part(toks[k]),
            decreases layers.len() - i,
        {
            let t = layers[i].as_str();
            assert(t@ == toks[i as int]);
            let n = t.unicode_len();
            if n == 0 {
                assert(input@.len() > 0);
                assert(i < split_layers(input@).len());
                assert(split_layers(input@)[i as int].len() == 0);
                assert(parse_pattern(input@) is None);
                return Err(SchemaError::MalformedPattern);
            }
            if n >= 2 && t.get_char(0) == '<' && t.get_char(n - 1) == '>' {
                let name = t.substring_char(1, n - 1).to_owned();
                parts.push(Segment::Parameter(name));
            } else {
                parts.push(Segment::Literal(t.to_owned()));
            }
            i = i + 1;
        }
        let p = Pattern { parts };
        assert(p@ =~= toks.map_values(|t: Seq<char>| token_part(t)));
        assert forall|k: int| 0 <= k < p@.len() implies part_wf(#[trigger] p@[k]) by {
            let t = toks[k];
            assert(p@[k] == token_part(t));
            if t.len() >= 2 && t[0] == '<' && t.last() == '>' {
                let n = t.subrange(1, t.len() - 1);
                if n.contains('/') {
                    let j = choose|j: int| 0 <= j < n.len() && n[j] == '/';
                    assert(t[j + 1] == '/');
                }
            }
        }
        Ok(p)
    }

    /// The segments of this pattern.
    pub fn parts(&self) -> (r: &Vec<Segment>)
        ensures
            r@.map_values(|s: Segment| s@) == self@,
    {
        &self.parts
    }

    /// The number of segments.
    pub fn len(&self) -> (r: usize)
        ensures
            r == self@.len(),
    {
        self.parts.len()
    }

    /// Whether a parameter of this pattern carries the field `ident`.
    pub fn contains(&self, ident: &String) -> (r: bool)
        ensures
            r == exists|i: int| 0 <= i < self@.len() && self@[i] == Part::Param(ident@),
    {
        let mut i: usize = 0;
        while i < self.parts.len()
            invariant
                i <= self.parts@.len(),
                forall|k: int| 0 <= k < i ==> self@[k] != Part::Param(ident@),
            decreases self.parts@.len() - i,
        {
            let seg = &self.parts[i];
            assert(self@[i as int] == seg@);
            match seg {
                Segment::Parameter(n) => {
                    if *n == *ident {
                        assert(self@[i as int] == Part::Param(ident@));
                        return true;
                    }
                },
                Segment::Literal(_) => {},
            }
            i = i + 1;
        }
        false
    }

    /// Whether this pattern and `other` could claim the same topic: same
    /// length, and at each position the segments collide.
    pub fn equivalent_to(&self, other: &Pattern) -> (r: bool)
        ensures
            r == equivalent(self@, other@),
    {
        if self.parts.len() != other.parts.len() {
            return false;
        }
        let mut i: usize = 0;
        while i < self.parts.len()
            invariant
                i <= self.parts@.len(),
                self.parts@.len() == other.parts@.len(),
                forall|k: int| 0 <= k < i ==> parts_collide(#[trigger] self@[k], other@[k]),
            decreases self.parts@.len() - i,
        {
            assert(self@[i as int] == self.parts@[i as int]@);
            assert(other@[i as int] == other.parts@[i as int]@);
            let sa = &self.parts[i];
            let sb = &other.parts[i];
            assert(self@[i as int] == sa@ && other@[i as int] == sb@);
            match (sa, sb) {
                (Segment::Literal(a), Segment::Literal(b)) => {
                    if *a != *b {
                        return false;
                    }
                },
                _ => {},
            }
            i = i + 1;
        }
        true
    }

    /// The subscription filter of this pattern: each parameter becomes `+`,
    /// literals stay, joined by `/`.
    pub fn filter_string(&self) -> (r: String)
        ensures
            r@ == filter_of(self@),
    {
        proof {
            reveal_strlit("+");
        }
        let ghost layers = self@.map_values(|q: Part| filter_layer(q));
        let mut t = Topic::new();
        let mut i: usize = 0;
        while i < self.parts.len()
            invariant
                i <= self.parts@.len(),
                layers == self@.map_values(|q: Part| filter_layer(q)),
                t@ == pushed_all(layers.subrange(0, i as int)),
            decreases self.parts@.len() - i,
        {
            let seg = &self.parts[i];
            assert(self@[i as int] == seg@);
            assert(layers[i as int] == filter_layer(seg@));
            match seg {
                Segment::Literal(l) => t.push(l.as_str()),
                Segment::Parameter(_) => {
                    proof {
                        reveal_strlit("+");
                    }
                    assert("+"@ =~= seq!['+']);
                    t.push("+");
                },
            }
            assert(layers.subrange(0, i + 1).drop_last() =~= layers.subrange(0, i as int));
            assert(layers.subrange(0, i + 1).last() == layers[i as int]);
            i = i + 1;
        }
        assert(layers.subrange(0, i as int) =~= layers);
        t.into_string()
    }
}

} // verus!
