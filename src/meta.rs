//! Spec-level metadata (title, version, description) declared on a type by
//! `#[asyncapi(key = "value", ...)]` attributes.
//!
//! An attribute is held here as plain values: the single identifier of its
//! path, if it has one, and its nested `key` / `key = value` items in order.
use vstd::prelude::*;
use vstd::string::*;

verus! {

/// The value written after a nested key.
#[derive(Debug)]
pub enum ArgValue {
    /// `key` alone.
    Absent,
    /// `key = "text"`: a string literal.
    Str(String),
    /// `key = ...` with anything but a string literal.
    Other,
}

/// One nested item of an attribute.
#[derive(Debug)]
pub struct AttrArg {
    pub key: String,
    pub value: ArgValue,
}

/// An attribute: its path (when that is a single identifier) and its items.
#[derive(Debug)]
pub struct AttrModel {
    pub path: Option<String>,
    pub args: Vec<AttrArg>,
}

/// Metadata gathered from the attributes.
#[derive(Debug)]
pub struct AsyncApiSpecMeta {
    pub title: Option<String>,
    pub version: Option<String>,
    pub description: Option<String>,
}

pub open spec fn is_spec_attr(a: AttrModel) -> bool {
    a.path matches Some(p) && p@ == "asyncapi"@
}

pub open spec fn is_known_key(k: Seq<char>) -> bool {
    k == "title"@ || k == "version"@ || k == "description"@
}

/// Reading an attribute's items stops at an item it cannot take: a known key
/// without a string literal, or an unknown key followed by a value.
pub open spec fn halts_at(a: AttrArg) -> bool {
    if is_known_key(a.key@) {
        !(a.value is Str)
    } else {
        !(a.value is Absent)
    }
}

/// The effect of one item that does not halt the reading.
pub open spec fn apply_arg(m: AsyncApiSpecMeta, a: AttrArg) -> AsyncApiSpecMeta {
    match a.value {
        ArgValue::Str(s) => {
            if a.key@ == "title"@ {
                AsyncApiSpecMeta { title: Some(s), ..m }
            } else if a.key@ == "version"@ {
                AsyncApiSpecMeta { version: Some(s), ..m }
            } else if a.key@ == "description"@ {
                AsyncApiSpecMeta { description: Some(s), ..m }
            } else {
                m
            }
        },
        _ => m,
    }
}

/// Reads the items in order from `m`; the flag says whether the reading halted.
pub open spec fn read_args(m: AsyncApiSpecMeta, args: Seq<AttrArg>) -> (AsyncApiSpecMeta, bool)
    decreases args.len(),
{
    if args.len() == 0 {
        (m, false)
    } else {
        let (m1, halted) = read_args(m, args.drop_last());
        if halted {
            (m1, true)
        } else if halts_at(args.last()) {
            (m1, true)
        } else {
            (apply_arg(m1, args.last()), false)
        }
    }
}

/// The metadata of a list of attributes: later items override earlier ones.
pub open spec fn spec_meta_of(attrs: Seq<AttrModel>) -> AsyncApiSpecMeta
    decreases attrs.len(),
{
    if attrs.len() == 0 {
        AsyncApiSpecMeta { title: None, version: None, description: None }
    } else {
        let m = spec_meta_of(attrs.drop_last());
        if is_spec_attr(attrs.last()) {
            read_args(m, attrs.last().args@).0
        } else {
            m
        }
    }
}

fn matches_literal(s: &String, lit: &str) -> (r: bool)
    ensures
        r == (s@ == lit@),
{
    let l = String::from_str(lit);
    *s == l
}

fn read_attr_args(meta: &mut AsyncApiSpecMeta, args: &Vec<AttrArg>)
    ensures
        *final(meta) == read_args(*old(meta), args@).0,
{
    let ghost start = *meta;
    let mut i: usize = 0;
    while i < args.len()
        invariant
            0 <= i <= args.len(),
            start == *old(meta),
            read_args(start, args@.take(i as int)) == (*meta, false),
        decreases args.len() - i,
    {
        let a = &args[i];
        assert(args@.take(i + 1).drop_last() == args@.take(i as int));
        let known = matches_literal(&a.key, "title") || matches_literal(&a.key, "version")
            || matches_literal(&a.key, "description");
        match &a.value {
            ArgValue::Str(s) => {
                if matches_literal(&a.key, "title") {
                    meta.title = Some(s.clone());
                } else if matches_literal(&a.key, "version") {
                    meta.version = Some(s.clone());
                } else if matches_literal(&a.key, "description") {
                    meta.description = Some(s.clone());
                } else {
                    proof {
                        assert(read_args(start, args@.take(i + 1)) == (*meta, true));
                        lemma_read_halts_after(start, args@, i as int + 1);
                    }
                    return;
                }
            },
            ArgValue::Absent => {
                if known {
                    proof {
                        assert(read_args(start, args@.take(i + 1)) == (*meta, true));
                        lemma_read_halts_after(start, args@, i as int + 1);
                    }
                    return;
                }
            },
            ArgValue::Other => {
                proof {
                    assert(read_args(start, args@.take(i + 1)) == (*meta, true));
                    lemma_read_halts_after(start, args@, i as int + 1);
                }
                return;
            },
        }
        i += 1;
    }
    assert(args@.take(args.len() as int) == args@);
}

/// Once the reading has halted on a prefix, the rest of the items change nothing.
proof fn lemma_read_halts_after(m: AsyncApiSpecMeta, args: Seq<AttrArg>, n: int)
    requires
        0 <= n <= args.len(),
        read_args(m, args.take(n)).1,
    ensures
        read_args(m, args) == read_args(m, args.take(n)),
    decreases args.len() - n,
{
    if n < args.len() {
        assert(args.take(n + 1).drop_last() == args.take(n));
        lemma_read_halts_after(m, args, n + 1);
    } else {
        assert(args.take(n) == args);
    }
}

/// Extracts title, version and description from the `asyncapi` attributes;
/// other attributes are ignored, and a later value overrides an earlier one.
pub fn extract_asyncapi_spec_meta(attrs: &Vec<AttrModel>) -> (r: AsyncApiSpecMeta)
    ensures
        r == spec_meta_of(attrs@),
{
    let mut meta = AsyncApiSpecMeta { title: None, version: None, description: None };
    let mut i: usize = 0;
    while i < attrs.len()
        invariant
            0 <= i <= attrs.len(),
            meta == spec_meta_of(attrs@.take(i as int)),
        decreases attrs.len() - i,
    {
        assert(attrs@.take(i + 1).drop_last() == attrs@.take(i as int));
        let a = &attrs[i];
        let is_spec = match &a.path {
            Some(p) => matches_literal(p, "asyncapi"),
            None => false,
        };
        if is_spec {
            read_attr_args(&mut meta, &a.args);
        }
        i += 1;
    }
    assert(attrs@.take(attrs.len() as int) == attrs@);
    meta
}

} // verus!
