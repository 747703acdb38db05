use vstd::prelude::*;
use vstd::string::*;

verus! {

/// The topic that results from pushing `layer` onto the topic `t`: the layer
/// becomes the whole topic when `t` is empty, else it follows a `/`.
pub open spec fn pushed(t: Seq<char>, layer: Seq<char>) -> Seq<char> {
    if t.len() == 0 {
        layer
    } else {
        t + seq!['/'] + layer
    }
}

/// The topic that results from pushing `layer` in front of the topic `t`.
pub open spec fn pushed_front(t: Seq<char>, layer: Seq<char>) -> Seq<char> {
    if t.len() == 0 {
        layer
    } else {
        layer + seq!['/'] + t
    }
}

/// The topic built by pushing each of `layers`, in order, onto an empty topic.
pub open spec fn pushed_all(layers: Seq<Seq<char>>) -> Seq<char>
    decreases layers.len(),
{
    if layers.len() == 0 {
        Seq::empty()
    } else {
        pushed(pushed_all(layers.drop_last()), layers.last())
    }
}

/// The layers of a topic: its text split at every `/`. An empty text has one
/// empty layer.
pub open spec fn split_layers(s: Seq<char>) -> Seq<Seq<char>>
    decreases s.len(),
{
    if s.len() == 0 {
        seq![Seq::<char>::empty()]
    } else {
        let p = split_layers(s.drop_last());
        if s.last() == '/' {
            p.push(Seq::empty())
        } else {
            p.update(p.len() - 1, p.last().push(s.last()))
        }
    }
}

/// A layer that a topic can carry as one layer: not empty, without a `/`.
pub open spec fn is_layer(l: Seq<char>) -> bool {
    l.len() > 0 && !l.contains('/')
}

pub proof fn lemma_split_len(s: Seq<char>)
    ensures
        split_layers(s).len() >= 1,
    decreases s.len(),
{
    if s.len() > 0 {
        lemma_split_len(s.drop_last());
    }
}

/// Splitting a text without `/` gives that text as the only layer.
pub proof fn lemma_split_plain(s: Seq<char>)
    requires
        !s.contains('/'),
    ensures
        split_layers(s) == seq![s],
    decreases s.len(),
{
    if s.len() > 0 {
        let d = s.drop_last();
        assert(!d.contains('/')) by {
            if d.contains('/') {
                let i = choose|i: int| 0 <= i < d.len() && d[i] == '/';
                assert(s[i] == '/');
            }
        }
        lemma_split_plain(d);
        assert(s.last() != '/') by {
            assert(s[s.len() - 1] == s.last());
        }
        assert(d.push(s.last()) =~= s);
        assert(seq![d].update(0, s) =~= seq![s]);
    } else {
        assert(s =~= Seq::<char>::empty());
    }
}

/// Splitting `a/b`, where `b` holds no `/`, gives the layers of `a` and then `b`.
pub proof fn lemma_split_joined(a: Seq<char>, b: Seq<char>)
    requires
        !b.contains('/'),
    ensures
        split_layers(a + seq!['/'] + b) == split_layers(a).push(b),
    decreases b.len(),
{
    let j = a + seq!['/'] + b;
    if b.len() == 0 {
        assert(j.drop_last() =~= a);
        assert(j.last() == '/');
        assert(b =~= Seq::<char>::empty());
    } else {
        let d = b.drop_last();
        assert(!d.contains('/')) by {
            if d.contains('/') {
                let i = choose|i: int| 0 <= i < d.len() && d[i] == '/';
                assert(b[i] == '/');
            }
        }
        lemma_split_joined(a, d);
        assert(j.drop_last() =~= a + seq!['/'] + d);
        assert(j.last() == b.last());
        assert(b.last() != '/') by {
            assert(b[b.len() - 1] == b.last());
        }
        assert(d.push(b.last()) =~= b);
        assert(split_layers(a).push(d).update(split_layers(a).len() as int, b) =~= split_layers(
            a,
        ).push(b));
    }
}

/// Pushing layers that are each non-empty and free of `/` and then splitting
/// the topic gives those layers back.
pub proof fn lemma_split_pushed_all(layers: Seq<Seq<char>>)
    requires
        layers.len() > 0,
        forall|i: int| 0 <= i < layers.len() ==> is_layer(#[trigger] layers[i]),
    ensures
        split_layers(pushed_all(layers)) == layers,
        pushed_all(layers).len() > 0,
    decreases layers.len(),
{
    let d = layers.drop_last();
    if d.len() == 0 {
        assert(pushed_all(d) == Seq::<char>::empty());
        lemma_split_plain(layers.last());
        assert(seq![layers.last()] =~= layers);
    } else {
        assert forall|i: int| 0 <= i < d.len() implies is_layer(#[trigger] d[i]) by {
            assert(d[i] == layers[i]);
        }
        lemma_split_pushed_all(d);
        assert(is_layer(layers[layers.len() - 1]));
        lemma_split_joined(pushed_all(d), layers.last());
        assert(d.push(layers.last()) =~= layers);
    }
}

/// The text of a list of topics: each topic followed by a line break.
pub open spec fn tree_text(ts: Seq<Topic>) -> Seq<char>
    decreases ts.len(),
{
    if ts.len() == 0 {
        Seq::empty()
    } else {
        tree_text(ts.drop_last()) + ts.last()@ + seq!['\n']
    }
}

/// A list of topics.
#[derive(Debug, PartialEq)]
pub struct TopicTree(Vec<Topic>);

impl View for TopicTree {
    type V = Seq<Topic>;

    closed spec fn view(&self) -> Seq<Topic> {
        self.0@
    }
}

impl TopicTree {
    /// Create an empty list of topics.
    pub fn new() -> (r: TopicTree)
        ensures
            r@ == Seq::<Topic>::empty(),
    {
        TopicTree(Vec::new())
    }

    /// The topics of this list.
    pub fn inner(&self) -> (r: &Vec<Topic>)
        ensures
            r@ == self@,
    {
        &self.0
    }

    /// The topics of this list, to change in place.
    pub fn inner_mut(&mut self) -> (r: &mut Vec<Topic>)
        ensures
            r@ == old(self)@,
            final(r)@ == final(self)@,
    {
        &mut self.0
    }

    /// The topics of this list, each followed by a line break.
    pub fn to_text(&self) -> (r: String)
        ensures
            r@ == tree_text(self@),
    {
        let mut out = String::new();
        let mut i: usize = 0;
        assert(self@.subrange(0, 0) =~= Seq::<Topic>::empty());
        while i < self.0.len()
            invariant
                i <= self@.len(),
                self@ == self.0@,
                out@ == tree_text(self@.subrange(0, i as int)),
            decreases self@.len() - i,
        {
            proof {
                reveal_strlit("\n");
            }
            out.append(self.0[i].str());
            out.append("\n");
            assert(self@.subrange(0, i + 1).drop_last() =~= self@.subrange(0, i as int));
            assert(self@.subrange(0, i + 1).last() == self@[i as int]);
            assert("\n"@ =~= seq!['\n']);
            i = i + 1;
        }
        assert(self@.subrange(0, i as int) =~= self@);
        out
    }
}

/// An MQTT topic: layers separated by a `/` character.
///
/// A layer that holds a `/` cannot be told apart from several layers.
#[derive(Debug, PartialEq)]
pub struct Topic {
    inner: String,
}

impl View for Topic {
    type V = Seq<char>;

    closed spec fn view(&self) -> Seq<char> {
        self.inner@
    }
}

impl Clone for Topic {
    fn clone(&self) -> (r: Topic)
        ensures
            r@ == self@,
    {
        Topic { inner: self.inner.clone() }
    }
}

impl Topic {
    /// Create a topic from its text, taken as it is.
    pub fn from_str(input: &str) -> (r: Topic)
        ensures
            r@ == input@,
    {
        Topic { inner: input.to_owned() }
    }

    /// Create an empty topic.
    pub fn new() -> (r: Topic)
        ensures
            r@ == Seq::<char>::empty(),
    {
        Topic { inner: String::new() }
    }

    /// Push a layer onto the end of this topic.
    pub fn push(&mut self, layer: &str)
        ensures
            final(self)@ == pushed(old(self)@, layer@),
    {
        proof {
            reveal_strlit("/");
        }
        if !self.inner.as_str().is_empty() {
            self.inner.append("/");
        }
        self.inner.append(layer);
    }

    /// Push a layer in front of this topic.
    pub fn push_front(&mut self, layer: &str)
        ensures
            final(self)@ == pushed_front(old(self)@, layer@),
    {
        proof {
            reveal_strlit("/");
        }
        let value = if !self.inner.as_str().is_empty() {
            layer.to_owned().concat("/").concat(self.inner.as_str())
        } else {
            layer.to_owned()
        };
        self.inner = value;
    }

    /// The layers of this topic, in order.
    pub fn layers(&self) -> (r: Vec<String>)
        ensures
            r.deep_view() == split_layers(self@),
    {
        let s = self.inner.as_str();
        let n = s.unicode_len();
        let mut out: Vec<String> = Vec::new();
        let mut start: usize = 0;
        let mut i: usize = 0;
        assert(s@.subrange(0, 0) =~= Seq::<char>::empty());
        assert(out.deep_view().push(s@.subrange(0, 0)) =~= seq![Seq::<char>::empty()]);
        while i < n
            invariant
                n == s@.len(),
                s@ == self@,
                start <= i <= n,
                split_layers(s@.subrange(0, i as int)) == out.deep_view().push(
                    s@.subrange(start as int, i as int),
                ),
            decreases n - i,
        {
            let c = s.get_char(i);
            let ghost pre = s@.subrange(0, i as int);
            let ghost next = s@.subrange(0, i + 1);
            assert(next.drop_last() =~= pre);
            assert(next.last() == c);
            if c == '/' {
                let layer = s.substring_char(start, i).to_owned();
                out.push(layer);
                start = i + 1;
                assert(out.deep_view() =~= split_layers(pre));
                assert(s@.subrange(start as int, i + 1) =~= Seq::<char>::empty());
            } else {
                assert(s@.subrange(start as int, i as int).push(c) =~= s@.subrange(
                    start as int,
                    i + 1,
                ));
                assert(split_layers(next) =~= out.deep_view().push(
                    s@.subrange(start as int, i + 1),
                ));
            }
            i = i + 1;
        }
        let last = s.substring_char(start, n).to_owned();
        out.push(last);
        assert(s@.subrange(0, n as int) =~= s@);
        assert(out.deep_view() =~= split_layers(self@));
        out
    }

    /// The text of this topic.
    pub fn str(&self) -> (r: &str)
        ensures
            r@ == self@,
    {
        self.inner.as_str()
    }

    /// The text of this topic, as an owned string.
    pub fn into_string(self) -> (r: String)
        ensures
            r@ == self@,
    {
        self.inner
    }
}

} // verus!
