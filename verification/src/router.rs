//! The route trie and its matcher. Patterns are split on `/` into segments:
//! `:name` matches any non-empty segment and binds it, `*` matches the whole
//! remainder of the path, anything else matches verbatim. Handlers are held
//! as opaque identifiers; the caller that runs them keeps its own table.

use vstd::prelude::*;
use vstd::string::StringSliceAdditionalSpecFns;
use crate::bytes::{bytes_eq, join_bytes, join_from, split_all, split_bytes};
use crate::http::{
    http11, reason_internal_error, reason_not_found, HttpMethod, HttpRequest, HttpResponse,
    ReqView, RespView,
};
use crate::kv::{kv_set, kv_upsert};

verus! {

/// A handler registration: an identifier for a plain handler, or for one
/// that also wants the shared user data.
#[derive(Debug, Clone, Copy, PartialEq, Eq, Structural)]
pub enum Handler {
    WithoutData(u64),
    WithData(u64),
}

/// One segment of a registered pattern.
#[derive(Debug, Clone)]
pub enum RouterItem {
    Static(Vec<u8>),
    Param(Vec<u8>),
    Wildcard,
}

/// The mathematical reading of a pattern segment.
#[verifier::ext_equal]
pub enum ItemView {
    Static(Seq<u8>),
    Param(Seq<u8>),
    Wildcard,
}

impl View for RouterItem {
    type V = ItemView;

    open spec fn view(&self) -> ItemView {
        match self {
            RouterItem::Static(s) => ItemView::Static(s@),
            RouterItem::Param(s) => ItemView::Param(s@),
            RouterItem::Wildcard => ItemView::Wildcard,
        }
    }
}

/// One node of the trie: the handlers bound at this node, per method, and
/// the children, per pattern segment.
#[derive(Debug)]
pub struct RouterNode {
    pub handlers: Vec<(HttpMethod, Handler)>,
    pub next: Vec<(RouterItem, RouterNode)>,
}

/// The mathematical reading of a trie node.
#[verifier::ext_equal]
pub struct NodeView {
    pub handlers: Seq<(HttpMethod, Handler)>,
    pub children: Seq<(ItemView, NodeView)>,
}

pub open spec fn node_view(n: RouterNode) -> NodeView
    decreases n, 0int,
{
    NodeView { handlers: n.handlers@, children: children_view(n.next@) }
}

pub open spec fn children_view(cs: Seq<(RouterItem, RouterNode)>) -> Seq<(ItemView, NodeView)>
    decreases cs, 1int,
{
    if cs.len() == 0 {
        Seq::empty()
    } else {
        seq![(cs[0].0@, node_view(cs[0].1))] + children_view(cs.skip(1))
    }
}

pub proof fn lemma_children_view_index(cs: Seq<(RouterItem, RouterNode)>)
    ensures
        children_view(cs).len() == cs.len(),
        forall|i: int|
            0 <= i < cs.len() ==> #[trigger] children_view(cs)[i] == (
                cs[i].0@,
                node_view(cs[i].1),
            ),
    decreases cs.len(),
{
    if cs.len() > 0 {
        lemma_children_view_index(cs.skip(1));
    }
}

pub open spec fn empty_node() -> NodeView {
    NodeView { handlers: Seq::empty(), children: Seq::empty() }
}

// ---------------------------------------------------------------------------
// Handler maps
// ---------------------------------------------------------------------------

/// The handler bound to `m`, if any: the first entry with that method.
pub open spec fn handler_for(hs: Seq<(HttpMethod, Handler)>, m: HttpMethod) -> Option<Handler>
    decreases hs.len(),
{
    if hs.len() == 0 {
        None
    } else if hs[0].0 == m {
        Some(hs[0].1)
    } else {
        handler_for(hs.skip(1), m)
    }
}

/// Bind `m` to `h`, replacing an existing entry in place or appending.
pub open spec fn handlers_upsert(hs: Seq<(HttpMethod, Handler)>, m: HttpMethod, h: Handler) -> Seq<
    (HttpMethod, Handler),
>
    decreases hs.len(),
{
    if hs.len() == 0 {
        seq![(m, h)]
    } else if hs[0].0 == m {
        seq![(m, h)] + hs.skip(1)
    } else {
        seq![hs[0]] + handlers_upsert(hs.skip(1), m, h)
    }
}

proof fn lemma_handlers_upsert_at(hs: Seq<(HttpMethod, Handler)>, m: HttpMethod, h: Handler, j: int)
    requires
        0 <= j < hs.len(),
        hs[j].0 == m,
        forall|i: int| 0 <= i < j ==> (#[trigger] hs[i]).0 != m,
    ensures
        handlers_upsert(hs, m, h) =~= hs.update(j, (m, h)),
    decreases j,
{
    if j > 0 {
        lemma_handlers_upsert_at(hs.skip(1), m, h, j - 1);
    }
}

proof fn lemma_handlers_upsert_missing(hs: Seq<(HttpMethod, Handler)>, m: HttpMethod, h: Handler)
    requires
        forall|i: int| 0 <= i < hs.len() ==> (#[trigger] hs[i]).0 != m,
    ensures
        handlers_upsert(hs, m, h) =~= hs.push((m, h)),
    decreases hs.len(),
{
    if hs.len() > 0 {
        lemma_handlers_upsert_missing(hs.skip(1), m, h);
    }
}

proof fn lemma_handler_for_at(hs: Seq<(HttpMethod, Handler)>, m: HttpMethod, j: int)
    requires
        0 <= j < hs.len(),
        hs[j].0 == m,
        forall|i: int| 0 <= i < j ==> (#[trigger] hs[i]).0 != m,
    ensures
        handler_for(hs, m) == Some(hs[j].1),
    decreases j,
{
    if j > 0 {
        lemma_handler_for_at(hs.skip(1), m, j - 1);
    }
}

proof fn lemma_handler_for_missing(hs: Seq<(HttpMethod, Handler)>, m: HttpMethod)
    requires
        forall|i: int| 0 <= i < hs.len() ==> (#[trigger] hs[i]).0 != m,
    ensures
        handler_for(hs, m) == None::<Handler>,
    decreases hs.len(),
{
    if hs.len() > 0 {
        lemma_handler_for_missing(hs.skip(1), m);
    }
}

/// The handler bound to `m` in the entry list, if any.
fn handlers_get(hs: &Vec<(HttpMethod, Handler)>, m: HttpMethod) -> (r: Option<Handler>)
    ensures
        r == handler_for(hs@, m),
{
    let mut j: usize = 0;
    while j < hs.len()
        invariant
            j <= hs@.len(),
            forall|i: int| 0 <= i < j ==> (#[trigger] hs@[i]).0 != m,
        decreases hs@.len() - j,
    {
        if hs[j].0 == m {
            proof {
                lemma_handler_for_at(hs@, m, j as int);
            }
            return Some(hs[j].1);
        }
        j += 1;
    }
    proof {
        lemma_handler_for_missing(hs@, m);
    }
    None
}

/// Bind `m` to `h` in the entry list, replacing or appending.
fn handlers_set(hs: &mut Vec<(HttpMethod, Handler)>, m: HttpMethod, h: Handler)
    ensures
        final(hs)@ == handlers_upsert(old(hs)@, m, h),
{
    let ghost before = hs@;
    let mut j: usize = 0;
    while j < hs.len()
        invariant
            j <= hs@.len(),
            hs@ == before,
            before == old(hs)@,
            forall|i: int| 0 <= i < j ==> (#[trigger] hs@[i]).0 != m,
        decreases hs@.len() - j,
    {
        if hs[j].0 == m {
            hs.remove(j);
            hs.insert(j, (m, h));
            proof {
                lemma_handlers_upsert_at(before, m, h, j as int);
                assert(hs@ =~= before.update(j as int, (m, h)));
            }
            return ;
        }
        j += 1;
    }
    hs.push((m, h));
    proof {
        lemma_handlers_upsert_missing(before, m, h);
        assert(hs@ =~= before.push((m, h)));
    }
}

// ---------------------------------------------------------------------------
// Children
// ---------------------------------------------------------------------------

/// The child for a pattern segment, if any: the first entry with that item.
pub open spec fn child_for(cs: Seq<(ItemView, NodeView)>, item: ItemView) -> Option<NodeView>
    decreases cs.len(),
{
    if cs.len() == 0 {
        None
    } else if cs[0].0 == item {
        Some(cs[0].1)
    } else {
        child_for(cs.skip(1), item)
    }
}

/// Replace the child for `item` in place, or append one.
pub open spec fn child_set(cs: Seq<(ItemView, NodeView)>, item: ItemView, c: NodeView) -> Seq<
    (ItemView, NodeView),
>
    decreases cs.len(),
{
    if cs.len() == 0 {
        seq![(item, c)]
    } else if cs[0].0 == item {
        seq![(item, c)] + cs.skip(1)
    } else {
        seq![cs[0]] + child_set(cs.skip(1), item, c)
    }
}

proof fn lemma_child_for_at(cs: Seq<(ItemView, NodeView)>, item: ItemView, j: int)
    requires
        0 <= j < cs.len(),
        cs[j].0 == item,
        forall|i: int| 0 <= i < j ==> (#[trigger] cs[i]).0 != item,
    ensures
        child_for(cs, item) == Some(cs[j].1),
    decreases j,
{
    if j > 0 {
        lemma_child_for_at(cs.skip(1), item, j - 1);
    }
}

proof fn lemma_child_for_missing(cs: Seq<(ItemView, NodeView)>, item: ItemView)
    requires
        forall|i: int| 0 <= i < cs.len() ==> (#[trigger] cs[i]).0 != item,
    ensures
        child_for(cs, item) == None::<NodeView>,
    decreases cs.len(),
{
    if cs.len() > 0 {
        lemma_child_for_missing(cs.skip(1), item);
    }
}

proof fn lemma_child_set_at(cs: Seq<(ItemView, NodeView)>, item: ItemView, c: NodeView, j: int)
    requires
        0 <= j < cs.len(),
        cs[j].0 == item,
        forall|i: int| 0 <= i < j ==> (#[trigger] cs[i]).0 != item,
    ensures
        child_set(cs, item, c) =~= cs.update(j, (item, c)),
    decreases j,
{
    if j > 0 {
        lemma_child_set_at(cs.skip(1), item, c, j - 1);
    }
}

proof fn lemma_child_set_missing(cs: Seq<(ItemView, NodeView)>, item: ItemView, c: NodeView)
    requires
        forall|i: int| 0 <= i < cs.len() ==> (#[trigger] cs[i]).0 != item,
    ensures
        child_set(cs, item, c) =~= cs.push((item, c)),
    decreases cs.len(),
{
    if cs.len() > 0 {
        lemma_child_set_missing(cs.skip(1), item, c);
    }
}

/// Compare two pattern segments.
fn item_eq(a: &RouterItem, b: &RouterItem) -> (r: bool)
    ensures
        r == (a@ == b@),
{
    match (a, b) {
        (RouterItem::Static(x), RouterItem::Static(y)) => bytes_eq(x.as_slice(), y.as_slice()),
        (RouterItem::Param(x), RouterItem::Param(y)) => bytes_eq(x.as_slice(), y.as_slice()),
        (RouterItem::Wildcard, RouterItem::Wildcard) => true,
        _ => false,
    }
}

// ---------------------------------------------------------------------------
// Pattern segments
// ---------------------------------------------------------------------------

/// How a pattern segment is read: `:name` binds, `*` is the wildcard,
/// anything else is literal.
pub open spec fn classify_segment(seg: Seq<u8>) -> ItemView {
    if seg.len() > 0 && seg[0] == ':' as u8 {
        ItemView::Param(seg.skip(1))
    } else if seg == seq!['*' as u8] {
        ItemView::Wildcard
    } else {
        ItemView::Static(seg)
    }
}

/// Classify one pattern segment.
fn classify(seg: &Vec<u8>) -> (r: RouterItem)
    ensures
        r@ == classify_segment(seg@),
{
    if seg.len() > 0 && seg[0] == ':' as u8 {
        let name = vstd::slice::slice_to_vec(
            vstd::slice::slice_subrange(seg.as_slice(), 1, seg.len()),
        );
        proof {
            assert(name@ =~= seg@.skip(1));
        }
        RouterItem::Param(name)
    } else if seg.len() == 1 && seg[0] == '*' as u8 {
        proof {
            assert(seg@ =~= seq!['*' as u8]);
        }
        RouterItem::Wildcard
    } else {
        proof {
            if seg@.len() == 1 {
                assert(seg@ == seq![seg@[0]]) by {
                    assert(seg@ =~= seq![seg@[0]]);
                }
            }
        }
        RouterItem::Static(seg.clone())
    }
}

// ---------------------------------------------------------------------------
// Registration
// ---------------------------------------------------------------------------

/// Registering a handler: descend (or create) a child per segment and bind
/// `m -> h` at the final node, replacing any earlier binding.
pub open spec fn spec_insert(n: NodeView, m: HttpMethod, segs: Seq<Seq<u8>>, h: Handler) -> NodeView
    decreases segs.len(),
{
    if segs.len() == 0 {
        NodeView { handlers: handlers_upsert(n.handlers, m, h), children: n.children }
    } else {
        let item = classify_segment(segs[0]);
        let child = match child_for(n.children, item) {
            Some(c) => c,
            None => empty_node(),
        };
        let child2 = spec_insert(child, m, segs.skip(1), h);
        NodeView { handlers: n.handlers, children: child_set(n.children, item, child2) }
    }
}

// ---------------------------------------------------------------------------
// Matching
// ---------------------------------------------------------------------------

/// The byte of the reserved wildcard key `*`.
pub open spec fn star_key() -> Seq<u8> {
    seq!['*' as u8]
}

/// The handler of the first wildcard child that binds `m`, if any.
pub open spec fn wildcard_handler(cs: Seq<(ItemView, NodeView)>, m: HttpMethod) -> Option<Handler>
    decreases cs.len(),
{
    if cs.len() == 0 {
        None
    } else {
        match cs[0].0 {
            ItemView::Wildcard => match handler_for(cs[0].1.handlers, m) {
                Some(h) => Some(h),
                None => wildcard_handler(cs.skip(1), m),
            },
            _ => wildcard_handler(cs.skip(1), m),
        }
    }
}

/// Match the segments against a node: path exhausted means the handler bound
/// here; otherwise a matching static child wins, then the param children in
/// registration order (each consuming one non-empty segment and binding it),
/// then a wildcard, which consumes the rest and binds the joined remainder
/// to `*`. Bindings are listed deepest first.
pub open spec fn spec_match(n: NodeView, m: HttpMethod, segs: Seq<Seq<u8>>) -> Option<
    (Handler, Seq<(Seq<u8>, Seq<u8>)>),
>
    decreases segs.len(), 1int, 0int,
{
    if segs.len() == 0 {
        match handler_for(n.handlers, m) {
            Some(h) => Some((h, Seq::empty())),
            None => None,
        }
    } else {
        let st = match child_for(n.children, ItemView::Static(segs[0])) {
            Some(c) => spec_match(c, m, segs.skip(1)),
            None => None,
        };
        match st {
            Some(r) => Some(r),
            None => {
                let pa = if segs[0].len() > 0 {
                    try_params(n.children, m, segs)
                } else {
                    None
                };
                match pa {
                    Some(r) => Some(r),
                    None => match wildcard_handler(n.children, m) {
                        Some(h) => Some(
                            (h, seq![(star_key(), join_bytes(segs, '/' as u8))]),
                        ),
                        None => None,
                    },
                }
            },
        }
    }
}

/// Try the param children in order; the first whose subtree matches the
/// remaining segments wins and binds the current segment to its name.
pub open spec fn try_params(
    cs: Seq<(ItemView, NodeView)>,
    m: HttpMethod,
    segs: Seq<Seq<u8>>,
) -> Option<(Handler, Seq<(Seq<u8>, Seq<u8>)>)>
    decreases segs.len(), 0int, cs.len(),
{
    if cs.len() == 0 || segs.len() == 0 {
        None
    } else {
        let attempt = match cs[0].0 {
            ItemView::Param(name) => match spec_match(cs[0].1, m, segs.skip(1)) {
                Some(r) => Some((r.0, r.1.push((name, segs[0])))),
                None => None,
            },
            _ => None,
        };
        match attempt {
            Some(r) => Some(r),
            None => try_params(cs.skip(1), m, segs),
        }
    }
}

/// Bind each pair in turn, later pairs overriding earlier ones.
pub open spec fn apply_bindings(
    params: Seq<(Seq<u8>, Seq<u8>)>,
    binds: Seq<(Seq<u8>, Seq<u8>)>,
) -> Seq<(Seq<u8>, Seq<u8>)>
    decreases binds.len(),
{
    if binds.len() == 0 {
        params
    } else {
        apply_bindings(kv_upsert(params, binds[0].0, binds[0].1), binds.skip(1))
    }
}

proof fn lemma_apply_bindings_push(
    params: Seq<(Seq<u8>, Seq<u8>)>,
    binds: Seq<(Seq<u8>, Seq<u8>)>,
    b: (Seq<u8>, Seq<u8>),
)
    ensures
        apply_bindings(params, binds.push(b)) == kv_upsert(apply_bindings(params, binds), b.0, b.1),
    decreases binds.len(),
{
    if binds.len() == 0 {
        assert(binds.push(b)[0] == b);
        assert(binds.push(b).skip(1) =~= Seq::<(Seq<u8>, Seq<u8>)>::empty());
        assert(apply_bindings(kv_upsert(params, b.0, b.1), Seq::<(Seq<u8>, Seq<u8>)>::empty())
            == kv_upsert(params, b.0, b.1));
    } else {
        assert(binds.push(b)[0] == binds[0]);
        assert(binds.push(b).skip(1) =~= binds.skip(1).push(b));
        lemma_apply_bindings_push(kv_upsert(params, binds[0].0, binds[0].1), binds.skip(1), b);
    }
}

impl RouterNode {
    /// An empty node: no handlers, no children.
    pub fn new() -> (r: Self)
        ensures
            node_view(r) == empty_node(),
    {
        let r = RouterNode { handlers: Vec::new(), next: Vec::new() };
        proof {
            assert(children_view(r.next@) =~= Seq::<(ItemView, NodeView)>::empty());
            assert(node_view(r) =~= empty_node());
        }
        r
    }

    /// Index of the first child registered for `item`.
    fn find_child(&self, item: &RouterItem) -> (r: Option<usize>)
        ensures
            match r {
                Some(j) => j < self.next@.len() && self.next@[j as int].0@ == item@ && forall|
                    i: int,
                |
                    0 <= i < j ==> (#[trigger] self.next@[i]).0@ != item@,
                None => forall|i: int|
                    0 <= i < self.next@.len() ==> (#[trigger] self.next@[i]).0@ != item@,
            },
    {
        let mut j: usize = 0;
        while j < self.next.len()
            invariant
                j <= self.next@.len(),
                forall|i: int| 0 <= i < j ==> (#[trigger] self.next@[i]).0@ != item@,
            decreases self.next@.len() - j,
        {
            if item_eq(&self.next[j].0, item) {
                return Some(j);
            }
            j += 1;
        }
        None
    }

    /// Register `f` for `method` under the pattern segments from `i` on.
    #[verifier::loop_isolation(false)]
    pub fn insert_handler(&mut self, method: HttpMethod, segs: &Vec<Vec<u8>>, i: usize, f: Handler)
        requires
            i <= segs@.len(),
        ensures
            node_view(*final(self)) == spec_insert(
                node_view(*old(self)),
                method,
                segs.deep_view().skip(i as int),
                f,
            ),
        decreases segs@.len() - i,
    {
        let ghost before = node_view(*self);
        let ghost sv = segs.deep_view().skip(i as int);
        if i == segs.len() {
            handlers_set(&mut self.handlers, method, f);
            proof {
                assert(sv =~= Seq::<Seq<u8>>::empty());
                assert(node_view(*self) =~= spec_insert(before, method, sv, f));
            }
            return ;
        }
        proof {
            assert(segs.deep_view()[i as int] == segs@[i as int].deep_view());
            assert(segs@[i as int].deep_view() =~= segs@[i as int]@);
            assert(sv[0] == segs@[i as int]@);
            assert(sv.skip(1) =~= segs.deep_view().skip(i as int + 1));
            lemma_children_view_index(self.next@);
        }
        let item = classify(&segs[i]);
        let ghost itemv = item@;
        match self.find_child(&item) {
            Some(j) => {
                proof {
                    lemma_child_for_at(children_view(self.next@), itemv, j as int);
                }
                let (it, mut child) = self.next.remove(j);
                let ghost child_before = node_view(child);
                child.insert_handler(method, segs, i + 1, f);
                let ghost removed = self.next@;
                self.next.insert(j, (it, child));
                proof {
                    assert(self.next@ =~= old(self).next@.update(
                        j as int,
                        (old(self).next@[j as int].0, self.next@[j as int].1),
                    ));
                    lemma_children_view_index(self.next@);
                    lemma_child_set_at(
                        children_view(old(self).next@),
                        itemv,
                        node_view(self.next@[j as int].1),
                        j as int,
                    );
                    assert(children_view(self.next@) =~= child_set(
                        children_view(old(self).next@),
                        itemv,
                        spec_insert(child_before, method, sv.skip(1), f),
                    ));
                    assert(node_view(*self) =~= spec_insert(before, method, sv, f));
                }
            },
            None => {
                proof {
                    lemma_child_for_missing(children_view(self.next@), itemv);
                }
                let mut child = RouterNode::new();
                child.insert_handler(method, segs, i + 1, f);
                self.next.push((item, child));
                proof {
                    assert(self.next@ =~= old(self).next@.push(
                        (self.next@[self.next@.len() - 1].0, self.next@[self.next@.len() - 1].1),
                    ));
                    lemma_children_view_index(self.next@);
                    lemma_child_set_missing(
                        children_view(old(self).next@),
                        itemv,
                        spec_insert(empty_node(), method, sv.skip(1), f),
                    );
                    assert(children_view(self.next@) =~= child_set(
                        children_view(old(self).next@),
                        itemv,
                        spec_insert(empty_node(), method, sv.skip(1), f),
                    ));
                    assert(node_view(*self) =~= spec_insert(before, method, sv, f));
                }
            },
        }
    }

    /// Walk the trie from segment `i` on; on a match the bindings of the
    /// successful branch are added to `req.params` and the handler is
    /// returned; on a miss the request is left untouched.
    #[verifier::loop_isolation(false)]
    pub fn get_handler(&self, req: &mut HttpRequest, segs: &Vec<Vec<u8>>, i: usize) -> (r: Option<
        Handler,
    >)
        requires
            i <= segs@.len(),
        ensures
            ({
                let res = spec_match(
                    node_view(*self),
                    old(req)@.method,
                    segs.deep_view().skip(i as int),
                );
                match r {
                    Some(h) => res is Some && res->Some_0.0 == h && final(req)@ == (ReqView {
                        params: apply_bindings(old(req)@.params, res->Some_0.1),
                        ..old(req)@
                    }),
                    None => res is None && *final(req) == *old(req),
                }
            }),
        decreases segs@.len() - i,
    {
        let ghost nv = node_view(*self);
        let ghost sv = segs.deep_view().skip(i as int);
        let ghost m = old(req)@.method;
        let ghost cv = children_view(self.next@);
        proof {
            lemma_children_view_index(self.next@);
        }
        if i == segs.len() {
            proof {
                assert(sv =~= Seq::<Seq<u8>>::empty());
            }
            let r = handlers_get(&self.handlers, req.method);
            proof {
                if r is Some {
                    assert(spec_match(nv, m, sv) == Some(
                        (r->Some_0, Seq::<(Seq<u8>, Seq<u8>)>::empty()),
                    ));
                    assert(apply_bindings(old(req)@.params, Seq::<(Seq<u8>, Seq<u8>)>::empty())
                        == old(req)@.params);
                    assert(req@ =~= (ReqView {
                        params: apply_bindings(old(req)@.params, Seq::<(Seq<u8>, Seq<u8>)>::empty()),
                        ..old(req)@
                    }));
                }
            }
            return r;
        }
        proof {
            assert(segs.deep_view()[i as int] == segs@[i as int].deep_view());
            assert(segs@[i as int].deep_view() =~= segs@[i as int]@);
            assert(sv[0] == segs@[i as int]@);
            assert(sv.skip(1) =~= segs.deep_view().skip(i as int + 1));
        }
        // A static child first.
        let sitem = RouterItem::Static(segs[i].clone());
        proof {
            assert(sitem@ == ItemView::Static(sv[0]));
        }
        match self.find_child(&sitem) {
            Some(j) => {
                proof {
                    lemma_child_for_at(cv, sitem@, j as int);
                }
                if let Some(h) = self.next[j].1.get_handler(req, segs, i + 1) {
                    proof {
                        assert(spec_match(nv, m, sv) is Some);
                    }
                    return Some(h);
                }
            },
            None => {
                proof {
                    lemma_child_for_missing(cv, sitem@);
                }
            },
        }
        proof {
            assert(match child_for(nv.children, ItemView::Static(sv[0])) {
                Some(c) => spec_match(c, m, sv.skip(1)) is None,
                None => true,
            });
        }
        // Then the param children, in registration order.
        if segs[i].len() > 0 {
            let mut j: usize = 0;
            proof {
                assert(cv.skip(0) =~= cv);
            }
            while j < self.next.len()
                invariant
                    j <= self.next@.len(),
                    *req == *old(req),
                    try_params(cv, m, sv) == try_params(cv.skip(j as int), m, sv),
                decreases self.next@.len() - j,
            {
                proof {
                    assert(cv.skip(j as int)[0] == cv[j as int]);
                    assert(cv.skip(j as int).skip(1) =~= cv.skip(j as int + 1));
                }
                match &self.next[j].0 {
                    RouterItem::Param(name) => {
                        if let Some(h) = self.next[j].1.get_handler(req, segs, i + 1) {
                            let ghost res_child = spec_match(node_view(self.next@[j as int].1), m, sv.skip(1));
                            let bound_name = name.clone();
                            let bound_value = segs[i].clone();
                            let ghost namev = bound_name@;
                            let ghost valuev = bound_value@;
                            kv_set(&mut req.params, bound_name, bound_value);
                            proof {
                                assert(namev =~= name@);
                                assert(valuev =~= sv[0]);
                                let binds = res_child->Some_0.1.push((name@, sv[0]));
                                assert(try_params(cv.skip(j as int), m, sv) == Some(
                                    (h, binds),
                                ));
                                assert(spec_match(nv, m, sv) == Some((h, binds)));
                                lemma_apply_bindings_push(
                                    old(req)@.params,
                                    res_child->Some_0.1,
                                    (name@, sv[0]),
                                );
                                assert(req@ =~= (ReqView {
                                    params: apply_bindings(old(req)@.params, binds),
                                    ..old(req)@
                                }));
                            }
                            return Some(h);
                        }
                    },
                    _ => {},
                }
                j += 1;
            }
            proof {
                assert(cv.skip(self.next@.len() as int) =~= Seq::<(ItemView, NodeView)>::empty());
                assert(try_params(cv, m, sv) is None);
            }
        }
        // Finally a wildcard, which takes everything that is left.
        let mut j: usize = 0;
        proof {
            assert(cv.skip(0) =~= cv);
        }
        while j < self.next.len()
            invariant
                j <= self.next@.len(),
                *req == *old(req),
                wildcard_handler(cv, m) == wildcard_handler(cv.skip(j as int), m),
            decreases self.next@.len() - j,
        {
            proof {
                assert(cv.skip(j as int)[0] == cv[j as int]);
                assert(cv.skip(j as int).skip(1) =~= cv.skip(j as int + 1));
            }
            match &self.next[j].0 {
                RouterItem::Wildcard => {
                    if let Some(h) = handlers_get(&self.next[j].1.handlers, req.method) {
                        let tail = join_from(segs, i, '/' as u8);
                        let star: Vec<u8> = vec!['*' as u8];
                        let ghost tailv = tail@;
                        proof {
                            assert(star@ =~= star_key());
                        }
                        kv_set(&mut req.params, star, tail);
                        proof {
                            assert(wildcard_handler(cv.skip(j as int), m) == Some(h));
                            let binds = seq![(star_key(), join_bytes(sv, '/' as u8))];
                            assert(spec_match(nv, m, sv) == Some((h, binds)));
                            assert(tailv == join_bytes(sv, '/' as u8));
                            assert(apply_bindings(old(req)@.params, binds) == kv_upsert(
                                old(req)@.params,
                                star_key(),
                                join_bytes(sv, '/' as u8),
                            )) by {
                                assert(binds.skip(1) =~= Seq::<(Seq<u8>, Seq<u8>)>::empty());
                                assert(apply_bindings(
                                    kv_upsert(
                                        old(req)@.params,
                                        star_key(),
                                        join_bytes(sv, '/' as u8),
                                    ),
                                    Seq::<(Seq<u8>, Seq<u8>)>::empty(),
                                ) == kv_upsert(
                                    old(req)@.params,
                                    star_key(),
                                    join_bytes(sv, '/' as u8),
                                ));
                            }
                            assert(req@ =~= (ReqView {
                                params: apply_bindings(old(req)@.params, binds),
                                ..old(req)@
                            }));
                        }
                        return Some(h);
                    }
                },
                _ => {},
            }
            j += 1;
        }
        proof {
            assert(cv.skip(self.next@.len() as int) =~= Seq::<(ItemView, NodeView)>::empty());
            assert(wildcard_handler(cv, m) is None);
            assert(spec_match(nv, m, sv) is None);
        }
        None
    }

    /// The child a concrete segment descends to first when looked up alone:
    /// the static child for that exact segment; for a segment of the form
    /// `:name`, the param child of that name; else the wildcard child.
    pub fn lookup(&self, id: &[u8]) -> (r: Option<&RouterNode>)
        ensures
            match r {
                Some(c) => lookup_spec(node_view(*self).children, id@) == Some(node_view(*c)),
                None => lookup_spec(node_view(*self).children, id@) is None,
            },
    {
        proof {
            lemma_children_view_index(self.next@);
        }
        let ghost cv = children_view(self.next@);
        let sitem = RouterItem::Static(vstd::slice::slice_to_vec(id));
        match self.find_child(&sitem) {
            Some(j) => {
                proof {
                    lemma_child_for_at(cv, sitem@, j as int);
                }
                return Some(&self.next[j].1);
            },
            None => {
                proof {
                    lemma_child_for_missing(cv, sitem@);
                }
            },
        }
        if id.len() > 0 && id[0] == ':' as u8 {
            let name = vstd::slice::slice_to_vec(vstd::slice::slice_subrange(id, 1, id.len()));
            proof {
                assert(name@ =~= id@.skip(1));
            }
            let pitem = RouterItem::Param(name);
            match self.find_child(&pitem) {
                Some(j) => {
                    proof {
                        lemma_child_for_at(cv, pitem@, j as int);
                    }
                    return Some(&self.next[j].1);
                },
                None => {
                    proof {
                        lemma_child_for_missing(cv, pitem@);
                    }
                },
            }
        }
        match self.find_child(&RouterItem::Wildcard) {
            Some(j) => {
                proof {
                    lemma_child_for_at(cv, ItemView::Wildcard, j as int);
                }
                Some(&self.next[j].1)
            },
            None => {
                proof {
                    lemma_child_for_missing(cv, ItemView::Wildcard);
                }
                None
            },
        }
    }
}

/// What `lookup` finds: static child first, then the named param child for
/// a `:name` segment, then the wildcard child.
pub open spec fn lookup_spec(cs: Seq<(ItemView, NodeView)>, id: Seq<u8>) -> Option<NodeView> {
    match child_for(cs, ItemView::Static(id)) {
        Some(c) => Some(c),
        None => {
            let by_param = if id.len() > 0 && id[0] == ':' as u8 {
                child_for(cs, ItemView::Param(id.skip(1)))
            } else {
                None
            };
            match by_param {
                Some(c) => Some(c),
                None => child_for(cs, ItemView::Wildcard),
            }
        },
    }
}

// ---------------------------------------------------------------------------
// The router and its dispatcher
// ---------------------------------------------------------------------------

/// The route trie plus whether shared user data was configured. The user
/// data itself is opaque to the routing rules; the caller that owns it keeps
/// it beside the handler table.
pub struct Router {
    root_node: RouterNode,
    has_user_data: bool,
}

/// The mathematical reading of a router.
#[verifier::ext_equal]
pub struct RouterView {
    pub root: NodeView,
    pub has_user_data: bool,
}

impl View for Router {
    type V = RouterView;

    closed spec fn view(&self) -> RouterView {
        RouterView { root: node_view(self.root_node), has_user_data: self.has_user_data }
    }
}

/// The body of the response sent when a stateful handler matches but no
/// user data was configured.
pub open spec fn user_data_missing_msg() -> Seq<u8> {
    "user data not set".spec_bytes()
}

/// The synthesized response for a stateful handler without user data.
pub open spec fn user_data_missing_view() -> RespView {
    RespView {
        version: http11(),
        status_code: 500,
        status_text: reason_internal_error(),
        headers: Seq::empty(),
        body: user_data_missing_msg(),
    }
}

/// The body of the response sent when no route matches.
pub open spec fn route_miss_msg() -> Seq<u8> {
    "route not found".spec_bytes()
}

/// The synthesized response for a request no route matches.
pub open spec fn route_miss_view() -> RespView {
    RespView {
        version: http11(),
        status_code: 404,
        status_text: reason_not_found(),
        headers: Seq::empty(),
        body: route_miss_msg(),
    }
}

/// The default 404 response a dispatcher answers a `Dispatch::Miss` with.
pub fn route_miss_response() -> (r: HttpResponse)
    ensures
        r@ == route_miss_view(),
{
    let r = HttpResponse::not_found("route not found");
    proof {
        assert(r@ =~= route_miss_view());
    }
    r
}

/// What the dispatcher decides for one request: which handler to run, with
/// the request carrying the extracted parameters, or a response of its own.
#[derive(Debug)]
pub enum Dispatch {
    /// Run the plain handler with this identifier on the request.
    WithoutData(u64, HttpRequest),
    /// Run the stateful handler with this identifier on the request and the
    /// shared user data.
    WithData(u64, HttpRequest),
    /// A stateful handler matched but no user data is configured: send this
    /// 500 response.
    Respond(HttpResponse),
    /// No handler matched; the caller answers with its 404 response.
    Miss(HttpRequest),
}

impl Router {
    /// An empty router; `has_user_data` says whether the caller will hand
    /// shared user data to stateful handlers.
    pub fn new(has_user_data: bool) -> (r: Router)
        ensures
            r@.root == empty_node(),
            r@.has_user_data == has_user_data,
    {
        Router { root_node: RouterNode::new(), has_user_data }
    }

    /// Register `f` for `method` under `path`, split on `/`.
    pub fn insert_route(&mut self, method: HttpMethod, path: &str, f: Handler)
        ensures
            final(self)@.root == spec_insert(
                old(self)@.root,
                method,
                split_bytes(path.spec_bytes(), '/' as u8),
                f,
            ),
            final(self)@.has_user_data == old(self)@.has_user_data,
    {
        let segs = split_all(path.as_bytes(), '/' as u8);
        proof {
            assert(segs.deep_view().skip(0) =~= segs.deep_view());
        }
        self.root_node.insert_handler(method, &segs, 0, f);
    }

    /// Register a plain handler for GET requests on `path`.
    pub fn get(&mut self, path: &str, f: u64)
        ensures
            final(self)@.root == spec_insert(
                old(self)@.root,
                HttpMethod::Get,
                split_bytes(path.spec_bytes(), '/' as u8),
                Handler::WithoutData(f),
            ),
            final(self)@.has_user_data == old(self)@.has_user_data,
    {
        self.insert_route(HttpMethod::Get, path, Handler::WithoutData(f));
    }

    /// Register a plain handler for HEAD requests on `path`.
    pub fn head(&mut self, path: &str, f: u64)
        ensures
            final(self)@.root == spec_insert(
                old(self)@.root,
                HttpMethod::Head,
                split_bytes(path.spec_bytes(), '/' as u8),
                Handler::WithoutData(f),
            ),
            final(self)@.has_user_data == old(self)@.has_user_data,
    {
        self.insert_route(HttpMethod::Head, path, Handler::WithoutData(f));
    }

    /// Register a plain handler for POST requests on `path`.
    pub fn post(&mut self, path: &str, f: u64)
        ensures
            final(self)@.root == spec_insert(
                old(self)@.root,
                HttpMethod::Post,
                split_bytes(path.spec_bytes(), '/' as u8),
                Handler::WithoutData(f),
            ),
            final(self)@.has_user_data == old(self)@.has_user_data,
    {
        self.insert_route(HttpMethod::Post, path, Handler::WithoutData(f));
    }

    /// Register a plain handler for PUT requests on `path`.
    pub fn put(&mut self, path: &str, f: u64)
        ensures
            final(self)@.root == spec_insert(
                old(self)@.root,
                HttpMethod::Put,
                split_bytes(path.spec_bytes(), '/' as u8),
                Handler::WithoutData(f),
            ),
            final(self)@.has_user_data == old(self)@.has_user_data,
    {
        self.insert_route(HttpMethod::Put, path, Handler::WithoutData(f));
    }

    /// Register a plain handler for DELETE requests on `path`.
    pub fn delete(&mut self, path: &str, f: u64)
        ensures
            final(self)@.root == spec_insert(
                old(self)@.root,
                HttpMethod::Delete,
                split_bytes(path.spec_bytes(), '/' as u8),
                Handler::WithoutData(f),
            ),
            final(self)@.has_user_data == old(self)@.has_user_data,
    {
        self.insert_route(HttpMethod::Delete, path, Handler::WithoutData(f));
    }

    /// Register a plain handler for CONNECT requests on `path`.
    pub fn connect(&mut self, path: &str, f: u64)
        ensures
            final(self)@.root == spec_insert(
                old(self)@.root,
                HttpMethod::Connect,
                split_bytes(path.spec_bytes(), '/' as u8),
                Handler::WithoutData(f),
            ),
            final(self)@.has_user_data == old(self)@.has_user_data,
    {
        self.insert_route(HttpMethod::Connect, path, Handler::WithoutData(f));
    }

    /// Register a plain handler for OPTIONS requests on `path`.
    pub fn options(&mut self, path: &str, f: u64)
        ensures
            final(self)@.root == spec_insert(
                old(self)@.root,
                HttpMethod::Options,
                split_bytes(path.spec_bytes(), '/' as u8),
                Handler::WithoutData(f),
            ),
            final(self)@.has_user_data == old(self)@.has_user_data,
    {
        self.insert_route(HttpMethod::Options, path, Handler::WithoutData(f));
    }

    /// Register a plain handler for TRACE requests on `path`.
    pub fn trace(&mut self, path: &str, f: u64)
        ensures
            final(self)@.root == spec_insert(
                old(self)@.root,
                HttpMethod::Trace,
                split_bytes(path.spec_bytes(), '/' as u8),
                Handler::WithoutData(f),
            ),
            final(self)@.has_user_data == old(self)@.has_user_data,
    {
        self.insert_route(HttpMethod::Trace, path, Handler::WithoutData(f));
    }

    /// Register a plain handler for PATCH requests on `path`.
    pub fn patch(&mut self, path: &str, f: u64)
        ensures
            final(self)@.root == spec_insert(
                old(self)@.root,
                HttpMethod::Patch,
                split_bytes(path.spec_bytes(), '/' as u8),
                Handler::WithoutData(f),
            ),
            final(self)@.has_user_data == old(self)@.has_user_data,
    {
        self.insert_route(HttpMethod::Patch, path, Handler::WithoutData(f));
    }

    /// Register a stateful handler for GET requests on `path`.
    pub fn get_ctx(&mut self, path: &str, f: u64)
        ensures
            final(self)@.root == spec_insert(
                old(self)@.root,
                HttpMethod::Get,
                split_bytes(path.spec_bytes(), '/' as u8),
                Handler::WithData(f),
            ),
            final(self)@.has_user_data == old(self)@.has_user_data,
    {
        self.insert_route(HttpMethod::Get, path, Handler::WithData(f));
    }

    /// Register a stateful handler for POST requests on `path`.
    pub fn post_ctx(&mut self, path: &str, f: u64)
        ensures
            final(self)@.root == spec_insert(
                old(self)@.root,
                HttpMethod::Post,
                split_bytes(path.spec_bytes(), '/' as u8),
                Handler::WithData(f),
            ),
            final(self)@.has_user_data == old(self)@.has_user_data,
    {
        self.insert_route(HttpMethod::Post, path, Handler::WithData(f));
    }

    /// Register a stateful handler for PUT requests on `path`.
    pub fn put_ctx(&mut self, path: &str, f: u64)
        ensures
            final(self)@.root == spec_insert(
                old(self)@.root,
                HttpMethod::Put,
                split_bytes(path.spec_bytes(), '/' as u8),
                Handler::WithData(f),
            ),
            final(self)@.has_user_data == old(self)@.has_user_data,
    {
        self.insert_route(HttpMethod::Put, path, Handler::WithData(f));
    }

    /// Register a stateful handler for DELETE requests on `path`.
    pub fn delete_ctx(&mut self, path: &str, f: u64)
        ensures
            final(self)@.root == spec_insert(
                old(self)@.root,
                HttpMethod::Delete,
                split_bytes(path.spec_bytes(), '/' as u8),
                Handler::WithData(f),
            ),
            final(self)@.has_user_data == old(self)@.has_user_data,
    {
        self.insert_route(HttpMethod::Delete, path, Handler::WithData(f));
    }

    /// Register a stateful handler for HEAD requests on `path`.
    pub fn head_ctx(&mut self, path: &str, f: u64)
        ensures
            final(self)@.root == spec_insert(
                old(self)@.root,
                HttpMethod::Head,
                split_bytes(path.spec_bytes(), '/' as u8),
                Handler::WithData(f),
            ),
            final(self)@.has_user_data == old(self)@.has_user_data,
    {
        self.insert_route(HttpMethod::Head, path, Handler::WithData(f));
    }

    /// Register a stateful handler for PATCH requests on `path`.
    pub fn patch_ctx(&mut self, path: &str, f: u64)
        ensures
            final(self)@.root == spec_insert(
                old(self)@.root,
                HttpMethod::Patch,
                split_bytes(path.spec_bytes(), '/' as u8),
                Handler::WithData(f),
            ),
            final(self)@.has_user_data == old(self)@.has_user_data,
    {
        self.insert_route(HttpMethod::Patch, path, Handler::WithData(f));
    }

    /// Register a stateful handler for OPTIONS requests on `path`.
    pub fn options_ctx(&mut self, path: &str, f: u64)
        ensures
            final(self)@.root == spec_insert(
                old(self)@.root,
                HttpMethod::Options,
                split_bytes(path.spec_bytes(), '/' as u8),
                Handler::WithData(f),
            ),
            final(self)@.has_user_data == old(self)@.has_user_data,
    {
        self.insert_route(HttpMethod::Options, path, Handler::WithData(f));
    }

    /// Register a stateful handler for CONNECT requests on `path`.
    pub fn connect_ctx(&mut self, path: &str, f: u64)
        ensures
            final(self)@.root == spec_insert(
                old(self)@.root,
                HttpMethod::Connect,
                split_bytes(path.spec_bytes(), '/' as u8),
                Handler::WithData(f),
            ),
            final(self)@.has_user_data == old(self)@.has_user_data,
    {
        self.insert_route(HttpMethod::Connect, path, Handler::WithData(f));
    }

    /// Register a stateful handler for TRACE requests on `path`.
    pub fn trace_ctx(&mut self, path: &str, f: u64)
        ensures
            final(self)@.root == spec_insert(
                old(self)@.root,
                HttpMethod::Trace,
                split_bytes(path.spec_bytes(), '/' as u8),
                Handler::WithData(f),
            ),
            final(self)@.has_user_data == old(self)@.has_user_data,
    {
        self.insert_route(HttpMethod::Trace, path, Handler::WithData(f));
    }

    /// Match the request's method and path against the trie and decide what
    /// the dispatcher does, binding route parameters on success.
    pub fn fetch(&self, request: HttpRequest) -> (r: Dispatch)
        ensures
            ({
                let res = spec_match(
                    self@.root,
                    request@.method,
                    split_bytes(request@.path, '/' as u8),
                );
                match r {
                    Dispatch::WithoutData(id, q) => res is Some && res->Some_0.0
                        == Handler::WithoutData(id) && q@ == (ReqView {
                        params: apply_bindings(request@.params, res->Some_0.1),
                        ..request@
                    }),
                    Dispatch::WithData(id, q) => self@.has_user_data && res is Some
                        && res->Some_0.0 == Handler::WithData(id) && q@ == (ReqView {
                        params: apply_bindings(request@.params, res->Some_0.1),
                        ..request@
                    }),
                    Dispatch::Respond(resp) => !self@.has_user_data && res is Some && (
                    res->Some_0.0 is WithData) && resp@ == user_data_missing_view(),
                    Dispatch::Miss(q) => res is None && q@ == request@,
                }
            }),
    {
        let mut request = request;
        let ghost entry = request@;
        let path = request.path.clone();
        let segs = split_all(path.as_slice(), '/' as u8);
        proof {
            assert(path@ =~= entry.path);
            assert(segs.deep_view().skip(0) =~= segs.deep_view());
        }
        match self.root_node.get_handler(&mut request, &segs, 0) {
            None => Dispatch::Miss(request),
            Some(h) => match h {
                Handler::WithoutData(id) => Dispatch::WithoutData(id, request),
                Handler::WithData(id) => {
                    if self.has_user_data {
                        Dispatch::WithData(id, request)
                    } else {
                        let resp = HttpResponse::internal_error("user data not set");
                        proof {
                            assert(resp@ =~= user_data_missing_view());
                        }
                        Dispatch::Respond(resp)
                    }
                },
            },
        }
    }
}

} // verus!
