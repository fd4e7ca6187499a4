//! The memoized renderer: produces the markup string of a node, consulting
//! and populating the render cache, recursing into children.
//!
//! Property values are interpolated into attributes verbatim; no escaping is
//! applied. That is this renderer's uniform policy: callers that embed
//! untrusted text must escape it before building the tree. A handler
//! property renders as a `data-on-` attribute whose event name is the
//! lowercased property key without its leading `on`.

use vstd::prelude::*;
use vstd::utf8::encode_utf8;

use crate::cache::{cache_entries, cache_map_get, cache_map_insert, cache_map_new, CacheMap,
    CacheSlot, CacheSlotV};
use crate::node::{node_eq, node_view, NodeV, VNode, Value, ValueV};

verus! {

/// Error raised when a property cannot be rendered: the handler reference of
/// the named property is not registered. The error names the tag and the
/// key of the failing property.
#[derive(Debug, Clone, PartialEq)]
pub struct RenderError {
    pub tag: String,
    pub key: String,
}

/// Mathematical model of a `RenderError`.
pub struct RenderErrV {
    pub tag: Seq<char>,
    pub key: Seq<char>,
}

impl View for RenderError {
    type V = RenderErrV;

    open spec fn view(&self) -> RenderErrV {
        RenderErrV { tag: self.tag@, key: self.key@ }
    }
}

/// The registry mapping handler references to the stable wire tokens they
/// are rendered as. The external handler subsystem assigns the tokens; the
/// renderer only looks them up.
pub struct HandlerRegistry {
    pub entries: Vec<(u64, String)>,
}

/// The view of the registry's entries.
pub open spec fn reg_views(entries: Seq<(u64, String)>) -> Seq<(u64, Seq<char>)> {
    entries.map(|i: int, e: (u64, String)| (e.0, e.1@))
}

impl View for HandlerRegistry {
    type V = Seq<(u64, Seq<char>)>;

    open spec fn view(&self) -> Seq<(u64, Seq<char>)> {
        reg_views(self.entries@)
    }
}

/// The token of the first registration of `h`, if any.
pub open spec fn reg_lookup(reg: Seq<(u64, Seq<char>)>, h: u64) -> Option<Seq<char>>
    decreases reg.len(),
{
    if reg.len() == 0 {
        None
    } else if reg[0].0 == h {
        Some(reg[0].1)
    } else {
        reg_lookup(reg.drop_first(), h)
    }
}

proof fn lemma_reg_lookup_at(reg: Seq<(u64, Seq<char>)>, h: u64, i: int)
    requires
        0 <= i <= reg.len(),
        forall|j: int| 0 <= j < i ==> (#[trigger] reg[j]).0 != h,
        i < reg.len() ==> reg[i].0 == h,
    ensures
        reg_lookup(reg, h) == if i < reg.len() {
            Some(reg[i].1)
        } else {
            None::<Seq<char>>
        },
    decreases i,
{
    if i == 0 {
    } else {
        lemma_reg_lookup_at(reg.drop_first(), h, i - 1);
        assert(i - 1 < reg.drop_first().len() ==> reg.drop_first()[i - 1] == reg[i]);
    }
}

impl HandlerRegistry {
    /// An empty registry.
    pub fn new() -> (r: Self)
        ensures
            r@.len() == 0,
    {
        HandlerRegistry { entries: Vec::new() }
    }

    /// Registers a token for a handler reference. The earliest registration
    /// of a reference wins.
    pub fn register(&mut self, handler: u64, token: String)
        ensures
            final(self)@ == old(self)@.push((handler, token@)),
    {
        let ghost e0 = self.entries@;
        self.entries.push((handler, token));
        proof {
            assert(reg_views(self.entries@) =~= reg_views(e0).push(
                (handler, self.entries@.last().1@),
            ));
        }
    }

    /// The token registered for `h`, if any.
    pub fn lookup(&self, h: u64) -> (r: Option<String>)
        ensures
            match r {
                Some(t) => reg_lookup(self@, h) == Some(t@),
                None => reg_lookup(self@, h) is None,
            },
    {
        let mut i: usize = 0;
        while i < self.entries.len()
            invariant
                i <= self.entries.len(),
                forall|j: int| 0 <= j < i as int ==> (#[trigger] reg_views(self.entries@)[j]).0
                    != h,
            decreases self.entries.len() - i,
        {
            if self.entries[i].0 == h {
                proof {
                    lemma_reg_lookup_at(self@, h, i as int);
                }
                return Some(self.entries[i].1.clone());
            }
            i += 1;
        }
        proof {
            lemma_reg_lookup_at(self@, h, self.entries@.len() as int);
        }
        None
    }
}

/// The decimal digit for `d`.
pub open spec fn digit_char(d: nat) -> char {
    if d == 0 {
        '0'
    } else if d == 1 {
        '1'
    } else if d == 2 {
        '2'
    } else if d == 3 {
        '3'
    } else if d == 4 {
        '4'
    } else if d == 5 {
        '5'
    } else if d == 6 {
        '6'
    } else if d == 7 {
        '7'
    } else if d == 8 {
        '8'
    } else {
        '9'
    }
}

/// The decimal numeral of `n`, most significant digit first.
pub open spec fn dec_nat(n: nat) -> Seq<char>
    decreases n,
{
    if n < 10 {
        seq![digit_char(n)]
    } else {
        dec_nat(n / 10).push(digit_char(n % 10))
    }
}

/// The decimal numeral of `v`, with a leading minus sign when negative.
pub open spec fn dec_i64(v: i64) -> Seq<char> {
    if v < 0 {
        seq!['-'] + dec_nat((-(v as int)) as nat)
    } else {
        dec_nat(v as nat)
    }
}

/// One rendered attribute: ` key="value"`.
pub open spec fn attr_sv(k: Seq<char>, v: Seq<char>) -> Seq<char> {
    seq![' '] + k + seq!['=', '"'] + v + seq!['"']
}

/// The key of a handler property without its leading `on`, or the whole key
/// when it does not start with `on`; the event name is this, lowercased.
pub open spec fn strip_on(key: Seq<char>) -> Seq<char> {
    if key.len() >= 2 && key[0] == 'o' && key[1] == 'n' {
        key.skip(2)
    } else {
        key
    }
}

/// What `str::to_lowercase` returns: the lowercase equivalent of the
/// characters, a function of the characters alone.
pub uninterp spec fn lower_of(s: Seq<char>) -> Seq<char>;

/// Relies on str::to_lowercase: the lowercase equivalent of the string,
/// which depends on the characters alone.
#[verifier::external_body]
fn lowercase(s: &str) -> (r: String)
    ensures
        r@ == lower_of(s@),
{
    s.to_lowercase()
}

/// The markup of one property: a plain attribute for a string, number or
/// true boolean; nothing for a false boolean; a `data-on-` token attribute
/// for a registered handler; an error naming the tag and key for a handler
/// that is not registered.
pub open spec fn render_prop(
    tag: Seq<char>,
    key: Seq<char>,
    v: ValueV,
    reg: Seq<(u64, Seq<char>)>,
) -> Result<Seq<char>, RenderErrV> {
    match v {
        ValueV::Str(s) => Ok(attr_sv(key, s)),
        ValueV::Num(x) => Ok(attr_sv(key, dec_i64(x))),
        ValueV::Bool(b) => if b {
            Ok(attr_sv(key, "true"@))
        } else {
            Ok(Seq::empty())
        },
        ValueV::Handler(h) => match reg_lookup(reg, h) {
            Some(tok) => Ok(attr_sv("data-on-"@ + lower_of(strip_on(key)), tok)),
            None => Err(RenderErrV { tag, key }),
        },
    }
}

/// The concatenated markup of the properties from index `i` on, or the
/// first error.
pub open spec fn render_props_v(
    tag: Seq<char>,
    props: Seq<(Seq<char>, ValueV)>,
    reg: Seq<(u64, Seq<char>)>,
    i: int,
) -> Result<Seq<char>, RenderErrV>
    decreases props.len() - i,
{
    if i < 0 || i >= props.len() {
        Ok(Seq::empty())
    } else {
        match render_prop(tag, props[i].0, props[i].1, reg) {
            Ok(s) => match render_props_v(tag, props, reg, i + 1) {
                Ok(rest) => Ok(s + rest),
                Err(e) => Err(e),
            },
            Err(e) => Err(e),
        }
    }
}

/// The concatenated markup of the children from index `j` on, or the first
/// error.
pub open spec fn render_children_v(n: NodeV, reg: Seq<(u64, Seq<char>)>, j: int) -> Result<
    Seq<char>,
    RenderErrV,
>
    decreases n, 0nat, n.children.len() - j,
{
    if j < 0 || j >= n.children.len() {
        Ok(Seq::empty())
    } else {
        match render_v(n.children[j], reg) {
            Ok(s) => match render_children_v(n, reg, j + 1) {
                Ok(rest) => Ok(s + rest),
                Err(e) => Err(e),
            },
            Err(e) => Err(e),
        }
    }
}

/// The markup of a node: `<tag attrs>children</tag>`, or the first error
/// raised while rendering its properties, then its children, in order.
pub open spec fn render_v(n: NodeV, reg: Seq<(u64, Seq<char>)>) -> Result<Seq<char>, RenderErrV>
    decreases n, 1nat, 0nat,
{
    match render_props_v(n.tag, n.props, reg, 0) {
        Ok(ps) => match render_children_v(n, reg, 0) {
            Ok(cs) => Ok(
                seq!['<'] + n.tag + ps + seq!['>'] + cs + seq!['<', '/'] + n.tag + seq!['>'],
            ),
            Err(e) => Err(e),
        },
        Err(e) => Err(e),
    }
}

/// Appends one decimal digit to `s`.
fn append_digit(s: &mut String, d: u64)
    requires
        d < 10,
    ensures
        final(s)@ == old(s)@ + seq![digit_char(d as nat)],
{
    match d {
        0 => {
            s.append("0");
            proof {
                reveal_strlit("0");
                assert(s@ =~= old(s)@ + seq![digit_char(0nat)]);
            }
        },
        1 => {
            s.append("1");
            proof {
                reveal_strlit("1");
                assert(s@ =~= old(s)@ + seq![digit_char(1nat)]);
            }
        },
        2 => {
            s.append("2");
            proof {
                reveal_strlit("2");
                assert(s@ =~= old(s)@ + seq![digit_char(2nat)]);
            }
        },
        3 => {
            s.append("3");
            proof {
                reveal_strlit("3");
                assert(s@ =~= old(s)@ + seq![digit_char(3nat)]);
            }
        },
        4 => {
            s.append("4");
            proof {
                reveal_strlit("4");
                assert(s@ =~= old(s)@ + seq![digit_char(4nat)]);
            }
        },
        5 => {
            s.append("5");
            proof {
                reveal_strlit("5");
                assert(s@ =~= old(s)@ + seq![digit_char(5nat)]);
            }
        },
        6 => {
            s.append("6");
            proof {
                reveal_strlit("6");
                assert(s@ =~= old(s)@ + seq![digit_char(6nat)]);
            }
        },
        7 => {
            s.append("7");
            proof {
                reveal_strlit("7");
                assert(s@ =~= old(s)@ + seq![digit_char(7nat)]);
            }
        },
        8 => {
            s.append("8");
            proof {
                reveal_strlit("8");
                assert(s@ =~= old(s)@ + seq![digit_char(8nat)]);
            }
        },
        _ => {
            s.append("9");
            proof {
                reveal_strlit("9");
                assert(s@ =~= old(s)@ + seq![digit_char(9nat)]);
            }
        },
    }
}

/// The decimal numeral of `n`.
fn u64_dec(n: u64) -> (r: String)
    ensures
        r@ == dec_nat(n as nat),
    decreases n,
{
    if n < 10 {
        let mut s = String::new();
        append_digit(&mut s, n);
        proof {
            assert(s@ =~= dec_nat(n as nat));
        }
        s
    } else {
        let mut s = u64_dec(n / 10);
        append_digit(&mut s, n % 10);
        proof {
            assert(s@ =~= dec_nat(n as nat));
        }
        s
    }
}

/// The decimal numeral of `v`, with a leading minus sign when negative.
fn i64_dec(v: i64) -> (r: String)
    ensures
        r@ == dec_i64(v),
{
    if v >= 0 {
        let r = u64_dec(v as u64);
        proof {
            assert((v as u64) as nat == v as nat);
        }
        r
    } else {
        let m: u64 = ((-1 - v) as u64) + 1;
        let mut s = String::new();
        s.append("-");
        let d = u64_dec(m);
        s.append(d.as_str());
        proof {
            reveal_strlit("-");
            assert(m as int == -(v as int));
            assert(s@ =~= dec_i64(v));
        }
        s
    }
}

/// Appends ` k="v"` to `out`.
fn append_attr(out: &mut String, k: &str, v: &str)
    ensures
        final(out)@ == old(out)@ + attr_sv(k@, v@),
{
    out.append(" ");
    out.append(k);
    out.append("=\"");
    out.append(v);
    out.append("\"");
    proof {
        reveal_strlit(" ");
        reveal_strlit("=\"");
        reveal_strlit("\"");
        assert(" "@ =~= seq![' ']);
        assert("=\""@ =~= seq!['=', '"']);
        assert("\""@ =~= seq!['"']);
        assert(out@ =~= old(out)@ + attr_sv(k@, v@));
    }
}

/// The `data-on-` attribute name of a handler property key: the lowercased
/// key without its leading `on`.
fn handler_name(key: &str) -> (r: String)
    ensures
        r@ == "data-on-"@ + lower_of(strip_on(key@)),
{
    let mut s = String::new();
    s.append("data-on-");
    let len = key.unicode_len();
    let event: String = if len >= 2 && key.get_char(0) == 'o' && key.get_char(1) == 'n' {
        let stem = key.substring_char(2, len);
        proof {
            assert(key@.subrange(2, len as int) =~= key@.skip(2));
        }
        lowercase(stem)
    } else {
        lowercase(key)
    };
    s.append(event.as_str());
    proof {
        assert(s@ =~= "data-on-"@ + lower_of(strip_on(key@)));
    }
    s
}

/// One FNV-style mixing step.
pub open spec fn fp_step(h: u64, x: u64) -> u64 {
    vstd::wrapping::u64_specs::wrapping_add(
        vstd::wrapping::u64_specs::wrapping_mul(h, 0x100000001b3),
        x,
    )
}

/// Folds the bytes from index `i` on into `h`.
pub open spec fn fp_bytes(h: u64, bs: Seq<u8>, i: int) -> u64
    decreases bs.len() - i,
{
    if i < 0 || i >= bs.len() {
        h
    } else {
        fp_bytes(fp_step(h, bs[i] as u64), bs, i + 1)
    }
}

/// Folds the UTF-8 bytes of a string into `h`.
pub open spec fn fp_str(h: u64, s: Seq<char>) -> u64 {
    fp_bytes(h, encode_utf8(s), 0)
}

/// Folds one property value into `h`, tagged by its variant.
pub open spec fn fp_value(h: u64, v: ValueV) -> u64 {
    match v {
        ValueV::Str(s) => fp_str(fp_step(h, 1), s),
        ValueV::Num(x) => fp_step(fp_step(h, 2), x as u64),
        ValueV::Bool(b) => fp_step(
            fp_step(h, 3),
            if b {
                1
            } else {
                0
            },
        ),
        ValueV::Handler(hr) => fp_step(fp_step(h, 4), hr),
    }
}

/// Folds the properties from index `i` on into `h`.
pub open spec fn fp_props(h: u64, props: Seq<(Seq<char>, ValueV)>, i: int) -> u64
    decreases props.len() - i,
{
    if i < 0 || i >= props.len() {
        h
    } else {
        fp_props(fp_value(fp_str(h, props[i].0), props[i].1), props, i + 1)
    }
}

/// Folds the fingerprints of the children from index `j` on into `h`.
pub open spec fn fp_children(h: u64, n: NodeV, j: int) -> u64
    decreases n, 0nat, n.children.len() - j,
{
    if j < 0 || j >= n.children.len() {
        h
    } else {
        fp_children(fp_step(h, fp_node(n.children[j])), n, j + 1)
    }
}

/// The fingerprint of a node: deterministically derived from its tag,
/// properties, key, flags and each child's own fingerprint, so a change
/// anywhere below changes every ancestor's fingerprint.
pub open spec fn fp_node(n: NodeV) -> u64
    decreases n, 1nat, 0nat,
{
    let h0 = fp_str(0xcbf29ce484222325, n.tag);
    let h1 = fp_props(h0, n.props, 0);
    let h2 = match n.key {
        Some(k) => fp_str(fp_step(h1, 5), k),
        None => fp_step(h1, 6),
    };
    let h3 = fp_step(
        h2,
        if n.is_critical {
            1
        } else {
            0
        },
    );
    let h4 = fp_step(h3, n.cache_duration_secs);
    fp_children(h4, n, 0)
}

/// Folds a byte slice into `h`.
fn fp_bytes_exec(h0: u64, bs: &[u8]) -> (r: u64)
    ensures
        r == fp_bytes(h0, bs@, 0),
{
    let mut h = h0;
    let mut i: usize = 0;
    while i < bs.len()
        invariant
            i <= bs@.len(),
            fp_bytes(h, bs@, i as int) == fp_bytes(h0, bs@, 0),
        decreases bs@.len() - i,
    {
        h = h.wrapping_mul(0x100000001b3).wrapping_add(bs[i] as u64);
        i += 1;
    }
    h
}

/// Folds a string's bytes into `h`.
fn fp_str_exec(h: u64, s: &str) -> (r: u64)
    ensures
        r == fp_str(h, s@),
{
    fp_bytes_exec(h, s.as_bytes())
}

/// Folds one property value into `h`.
fn fp_value_exec(h: u64, v: &Value) -> (r: u64)
    ensures
        r == fp_value(h, v@),
{
    match v {
        Value::Str(s) => fp_str_exec(h.wrapping_mul(0x100000001b3).wrapping_add(1), s.as_str()),
        Value::Num(x) => h.wrapping_mul(0x100000001b3).wrapping_add(2).wrapping_mul(
            0x100000001b3,
        ).wrapping_add(*x as u64),
        Value::Bool(b) => h.wrapping_mul(0x100000001b3).wrapping_add(3).wrapping_mul(
            0x100000001b3,
        ).wrapping_add(
            if *b {
                1
            } else {
                0
            },
        ),
        Value::Handler(hr) => h.wrapping_mul(0x100000001b3).wrapping_add(4).wrapping_mul(
            0x100000001b3,
        ).wrapping_add(*hr),
    }
}

/// Computes the fingerprint of a node.
pub fn fingerprint(node: &VNode) -> (r: u64)
    ensures
        r == fp_node(node@),
    decreases *node,
{
    let ghost n = node@;
    let mut h = fp_str_exec(0xcbf29ce484222325, node.tag.as_str());
    let ghost h0 = h;
    let mut i: usize = 0;
    while i < node.props.len()
        invariant
            i <= node.props.len(),
            n == node@,
            n.props.len() == node.props@.len(),
            fp_props(h, n.props, i as int) == fp_props(h0, n.props, 0),
        decreases node.props.len() - i,
    {
        proof {
            assert(n.props[i as int] == (node.props@[i as int].0@, node.props@[i as int].1@));
        }
        h = fp_str_exec(h, node.props[i].0.as_str());
        h = fp_value_exec(h, &node.props[i].1);
        i += 1;
    }
    h = match &node.key {
        Some(k) => fp_str_exec(h.wrapping_mul(0x100000001b3).wrapping_add(5), k.as_str()),
        None => h.wrapping_mul(0x100000001b3).wrapping_add(6),
    };
    h = h.wrapping_mul(0x100000001b3).wrapping_add(
        if node.is_critical {
            1
        } else {
            0
        },
    );
    h = h.wrapping_mul(0x100000001b3).wrapping_add(node.cache_duration_secs);
    let ghost h4 = h;
    let mut j: usize = 0;
    while j < node.children.len()
        invariant
            j <= node.children.len(),
            n == node@,
            n.children.len() == node.children@.len(),
            fp_children(h, n, j as int) == fp_children(h4, n, 0),
        decreases node.children.len() - j,
    {
        proof {
            assert(n.children[j as int] == node_view(node.children@[j as int]));
        }
        let cf = fingerprint(&node.children[j]);
        h = h.wrapping_mul(0x100000001b3).wrapping_add(cf);
        j += 1;
    }
    h
}

/// The renderer: the handler registry it resolves tokens through, the
/// render cache, and counters of cache hits and misses.
pub struct Renderer {
    pub registry: HandlerRegistry,
    pub cache: CacheMap,
    pub hits: u64,
    pub misses: u64,
}

/// A saturating increment.
pub open spec fn sat_inc(x: u64) -> u64 {
    if x == u64::MAX {
        x
    } else {
        (x + 1) as u64
    }
}

/// The cache holds a fresh entry for `n` at time `now`: the entry was
/// computed from `n` itself and has not outlived the node's cache lifetime.
pub open spec fn cache_fresh(r: Renderer, n: NodeV, now: u64) -> bool {
    let m = cache_entries(r.cache);
    &&& m.contains_key(fp_node(n))
    &&& m[fp_node(n)].node == n
    &&& m[fp_node(n)].created_at <= now
    &&& now - m[fp_node(n)].created_at < n.cache_duration_secs
}

impl Renderer {
    /// Every cached entry holds exactly the markup of the node it was
    /// computed from, under this renderer's registry.
    pub open spec fn wf(self) -> bool {
        forall|k: u64| #[trigger] cache_entries(self.cache).contains_key(k) ==> render_v(
            cache_entries(self.cache)[k].node,
            self.registry@,
        ) == Ok::<Seq<char>, RenderErrV>(cache_entries(self.cache)[k].markup)
    }

    /// A renderer over the given registry, with an empty cache.
    pub fn new(registry: HandlerRegistry) -> (r: Self)
        ensures
            r.wf(),
            r.registry == registry,
            r.hits == 0,
            r.misses == 0,
            forall|k: u64| !cache_entries(r.cache).contains_key(k),
    {
        Renderer { registry, cache: cache_map_new(), hits: 0, misses: 0 }
    }
}

impl VNode {
    /// Renders this node to markup at time `now`, memoized: a non-critical
    /// node whose cached markup is still fresh is served from the cache
    /// without re-rendering it or its children; a critical node is always
    /// recomputed, bypassing the cache at this node (children stay eligible
    /// for their own caching). The result is exactly the node's markup under
    /// the renderer's registry, wherever it came from.
    pub fn render(&self, r: &mut Renderer, now: u64) -> (res: Result<String, RenderError>)
        requires
            old(r).wf(),
        ensures
            final(r).wf(),
            final(r).registry == old(r).registry,
            (match res {
                Ok(s) => render_v(self@, old(r).registry@) == Ok::<Seq<char>, RenderErrV>(s@),
                Err(e) => render_v(self@, old(r).registry@) == Err::<Seq<char>, RenderErrV>(e@),
            }),
            !self@.is_critical && cache_fresh(*old(r), self@, now) ==> {
                &&& cache_entries(final(r).cache) == cache_entries(old(r).cache)
                &&& final(r).misses == old(r).misses
                &&& final(r).hits == sat_inc(old(r).hits)
            },
            !self@.is_critical && res is Ok ==> {
                &&& cache_entries(final(r).cache).contains_key(fp_node(self@))
                &&& cache_entries(final(r).cache)[fp_node(self@)].node == self@
                &&& cache_entries(final(r).cache)[fp_node(self@)].markup == res->Ok_0@
            },
            !self@.is_critical && res is Ok && !cache_fresh(*old(r), self@, now)
                ==> cache_entries(final(r).cache)[fp_node(self@)].created_at == now,
            final(r).misses >= old(r).misses,
            !self@.is_critical && !cache_fresh(*old(r), self@, now) ==> final(r).misses >= sat_inc(
                old(r).misses,
            ),
        decreases *self, 1nat,
    {
        if !self.is_critical {
            let fp = fingerprint(self);
            match cache_map_get(&r.cache, fp) {
                Some(slot) => {
                    if node_eq(&slot.node, self) && slot.created_at <= now && now - slot.created_at
                        < self.cache_duration_secs {
                        r.hits = sat_inc_exec(r.hits);
                        return Ok(slot.markup);
                    }
                },
                None => {},
            }
            r.misses = sat_inc_exec(r.misses);
            let s = match render_fresh(self, r, now) {
                Ok(s) => s,
                Err(e) => {
                    return Err(e);
                },
            };
            let slot = CacheSlot { node: self.clone_node(), markup: s.clone(), created_at: now };
            cache_map_insert(&mut r.cache, fp, slot);
            Ok(s)
        } else {
            render_fresh(self, r, now)
        }
    }
}

/// A saturating increment.
fn sat_inc_exec(x: u64) -> (r: u64)
    ensures
        r == sat_inc(x),
{
    if x < u64::MAX {
        x + 1
    } else {
        x
    }
}

/// Renders `node` afresh: its properties in order, then its children in
/// order, each child through the memoized renderer.
fn render_fresh(node: &VNode, r: &mut Renderer, now: u64) -> (res: Result<String, RenderError>)
    requires
        old(r).wf(),
    ensures
        final(r).wf(),
        final(r).registry == old(r).registry,
        (match res {
            Ok(s) => render_v(node@, old(r).registry@) == Ok::<Seq<char>, RenderErrV>(s@),
            Err(e) => render_v(node@, old(r).registry@) == Err::<Seq<char>, RenderErrV>(e@),
        }),
        final(r).misses >= old(r).misses,
    decreases *node, 0nat,
{
    let ghost n = node@;
    let ghost reg = old(r).registry@;
    let mut out = String::new();
    out.append("<");
    out.append(node.tag.as_str());
    let ghost mut acc: Seq<char> = Seq::empty();
    proof {
        reveal_strlit("<");
        assert(out@ =~= seq!['<'] + n.tag + acc);
    }
    let mut i: usize = 0;
    while i < node.props.len()
        invariant
            i <= node.props.len(),
            n == node@,
            reg == old(r).registry@,
            *r == *old(r),
            old(r).wf(),
            n.props.len() == node.props@.len(),
            out@ == seq!['<'] + n.tag + acc,
            render_props_v(n.tag, n.props, reg, 0) == (match render_props_v(
                n.tag,
                n.props,
                reg,
                i as int,
            ) {
                Ok(rest) => Ok::<Seq<char>, RenderErrV>(acc + rest),
                Err(e) => Err::<Seq<char>, RenderErrV>(e),
            }),
        decreases node.props.len() - i,
    {
        let ghost key = n.props[i as int].0;
        let ghost val = n.props[i as int].1;
        proof {
            assert(n.props[i as int] == (node.props@[i as int].0@, node.props@[i as int].1@));
        }
        let ghost piece: Seq<char>;
        match &node.props[i].1 {
            Value::Str(s) => {
                append_attr(&mut out, node.props[i].0.as_str(), s.as_str());
                proof {
                    piece = attr_sv(key, s@);
                    assert(render_prop(n.tag, key, val, reg) == Ok::<Seq<char>, RenderErrV>(piece));
                }
            },
            Value::Num(x) => {
                let ds = i64_dec(*x);
                append_attr(&mut out, node.props[i].0.as_str(), ds.as_str());
                proof {
                    piece = attr_sv(key, dec_i64(*x));
                    assert(render_prop(n.tag, key, val, reg) == Ok::<Seq<char>, RenderErrV>(piece));
                }
            },
            Value::Bool(b) => {
                if *b {
                    append_attr(&mut out, node.props[i].0.as_str(), "true");
                    proof {
                        piece = attr_sv(key, "true"@);
                        assert(render_prop(n.tag, key, val, reg) == Ok::<Seq<char>, RenderErrV>(
                            piece,
                        ));
                    }
                } else {
                    proof {
                        piece = Seq::empty();
                        assert(render_prop(n.tag, key, val, reg) == Ok::<Seq<char>, RenderErrV>(
                            piece,
                        ));
                        assert(out@ =~= seq!['<'] + n.tag + (acc + piece));
                    }
                }
            },
            Value::Handler(h) => {
                match r.registry.lookup(*h) {
                    Some(tok) => {
                        let name = handler_name(node.props[i].0.as_str());
                        append_attr(&mut out, name.as_str(), tok.as_str());
                        proof {
                            piece = attr_sv("data-on-"@ + lower_of(strip_on(key)), tok@);
                            assert(render_prop(n.tag, key, val, reg) == Ok::<
                                Seq<char>,
                                RenderErrV,
                            >(piece));
                        }
                    },
                    None => {
                        let e = RenderError {
                            tag: node.tag.clone(),
                            key: node.props[i].0.clone(),
                        };
                        proof {
                            assert(render_prop(n.tag, key, val, reg) == Err::<
                                Seq<char>,
                                RenderErrV,
                            >(e@));
                            assert(render_props_v(n.tag, n.props, reg, i as int) == Err::<
                                Seq<char>,
                                RenderErrV,
                            >(e@));
                            assert(render_v(n, reg) == Err::<Seq<char>, RenderErrV>(e@));
                        }
                        return Err(e);
                    },
                }
            },
        }
        proof {
            assert(out@ =~= seq!['<'] + n.tag + (acc + piece));
            match render_props_v(n.tag, n.props, reg, i as int + 1) {
                Ok(rest) => {
                    assert((acc + piece) + rest =~= acc + (piece + rest));
                },
                Err(e) => {},
            }
            acc = acc + piece;
        }
        i += 1;
    }
    proof {
        assert(render_props_v(n.tag, n.props, reg, n.props.len() as int) == Ok::<
            Seq<char>,
            RenderErrV,
        >(Seq::empty()));
        assert(acc + Seq::<char>::empty() =~= acc);
        assert(render_props_v(n.tag, n.props, reg, 0) == Ok::<Seq<char>, RenderErrV>(acc));
    }
    out.append(">");
    let ghost mut cacc: Seq<char> = Seq::empty();
    proof {
        reveal_strlit(">");
        assert(out@ =~= seq!['<'] + n.tag + acc + seq!['>'] + cacc);
    }
    let mut j: usize = 0;
    while j < node.children.len()
        invariant
            j <= node.children.len(),
            n == node@,
            reg == old(r).registry@,
            r.registry == old(r).registry,
            r.wf(),
            r.misses >= old(r).misses,
            n.children.len() == node.children@.len(),
            out@ == seq!['<'] + n.tag + acc + seq!['>'] + cacc,
            render_props_v(n.tag, n.props, reg, 0) == Ok::<Seq<char>, RenderErrV>(acc),
            render_children_v(n, reg, 0) == (match render_children_v(n, reg, j as int) {
                Ok(rest) => Ok::<Seq<char>, RenderErrV>(cacc + rest),
                Err(e) => Err::<Seq<char>, RenderErrV>(e),
            }),
        decreases node.children.len() - j,
    {
        proof {
            assert(n.children[j as int] == node_view(node.children@[j as int]));
        }
        match node.children[j].render(r, now) {
            Ok(cs) => {
                out.append(cs.as_str());
                proof {
                    assert(render_v(n.children[j as int], reg) == Ok::<Seq<char>, RenderErrV>(
                        cs@,
                    ));
                    match render_children_v(n, reg, j as int + 1) {
                        Ok(rest) => {
                            assert((cacc + cs@) + rest =~= cacc + (cs@ + rest));
                        },
                        Err(e) => {},
                    }
                    cacc = cacc + cs@;
                    assert(out@ =~= seq!['<'] + n.tag + acc + seq!['>'] + cacc);
                }
            },
            Err(e) => {
                proof {
                    assert(render_v(n.children[j as int], reg) == Err::<Seq<char>, RenderErrV>(
                        e@,
                    ));
                    assert(render_children_v(n, reg, j as int) == Err::<Seq<char>, RenderErrV>(
                        e@,
                    ));
                    assert(render_v(n, reg) == Err::<Seq<char>, RenderErrV>(e@));
                }
                return Err(e);
            },
        }
        j += 1;
    }
    proof {
        assert(render_children_v(n, reg, n.children.len() as int) == Ok::<Seq<char>, RenderErrV>(
            Seq::empty(),
        ));
        assert(cacc + Seq::<char>::empty() =~= cacc);
        assert(render_children_v(n, reg, 0) == Ok::<Seq<char>, RenderErrV>(cacc));
    }
    out.append("</");
    out.append(node.tag.as_str());
    out.append(">");
    proof {
        reveal_strlit("</");
        reveal_strlit(">");
        assert("</"@ =~= seq!['<', '/']);
        assert(out@ =~= seq!['<'] + n.tag + acc + seq!['>'] + cacc + seq!['<', '/'] + n.tag
            + seq!['>']);
        assert(render_v(n, reg) == Ok::<Seq<char>, RenderErrV>(out@));
    }
    Ok(out)
}

} // verus!
