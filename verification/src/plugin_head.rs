//! Head elements contributed by plugins, rendered into every document's
//! `<head>`.
//!
//! Only elements legal inside `<head>` are written. Attribute names that
//! could open another attribute or close the tag are dropped, values are
//! escaped, and raw text that would close its own element early is left out:
//! a malformed declaration is skipped rather than failing the render.

use vstd::prelude::*;

use crate::devtools::{keyed_wf, lemma_slot_exists, lemma_upsert_wf, locate, upsert};
use crate::site_discovery::{find_from, find_text};
use crate::sitemap::{escaped, push_escaped};
use crate::text::{
    opt_text,
    ascii_alnum, ascii_alpha, is_ascii_alnum, is_ascii_alpha, lower_all, push_str, str_chars,
    string_from_chars, to_ascii_lowercase,
};

verus! {

broadcast use vstd::string::group_string_axioms;

/// An attribute's declared value, as the configuration gives it.
#[derive(Debug, Clone)]
pub enum HeadAttributeValue {
    Text(String),
    /// A number, as JSON writes it.
    Number(String),
    Flag(bool),
    /// An array, an object or `null`.
    Structured,
}

pub ghost enum AttributeValueView {
    Text(Seq<char>),
    Number(Seq<char>),
    Flag(bool),
    Structured,
}

impl View for HeadAttributeValue {
    type V = AttributeValueView;

    open spec fn view(&self) -> AttributeValueView {
        match self {
            HeadAttributeValue::Text(t) => AttributeValueView::Text(t@),
            HeadAttributeValue::Number(n) => AttributeValueView::Number(n@),
            HeadAttributeValue::Flag(b) => AttributeValueView::Flag(*b),
            HeadAttributeValue::Structured => AttributeValueView::Structured,
        }
    }
}

fn copy_value(v: &HeadAttributeValue) -> (r: HeadAttributeValue)
    ensures
        r@ == v@,
{
    match v {
        HeadAttributeValue::Text(t) => HeadAttributeValue::Text(t.clone()),
        HeadAttributeValue::Number(n) => HeadAttributeValue::Number(n.clone()),
        HeadAttributeValue::Flag(b) => HeadAttributeValue::Flag(*b),
        HeadAttributeValue::Structured => HeadAttributeValue::Structured,
    }
}

/// One element a plugin declares for the document head. Attributes are kept
/// by name, in order, as a sorted map keeps them.
pub struct PluginHeadEntry {
    pub tag: String,
    attrs: Vec<(String, HeadAttributeValue)>,
    pub children: Option<String>,
}

pub open spec fn attr_view(v: Seq<(String, HeadAttributeValue)>) -> Seq<(Seq<char>, AttributeValueView)> {
    v.map_values(|x: (String, HeadAttributeValue)| (x.0@, x.1@))
}

/// The attributes of `pairs` by name, a later one of a name replacing an
/// earlier one.
pub open spec fn attribute_map(pairs: Seq<(Seq<char>, AttributeValueView)>) -> Seq<(Seq<char>, AttributeValueView)>
    decreases pairs.len(),
{
    if pairs.len() == 0 {
        Seq::empty()
    } else {
        upsert(attribute_map(pairs.drop_last()), pairs.last().0, pairs.last().1)
    }
}

proof fn lemma_attribute_map_wf(pairs: Seq<(Seq<char>, AttributeValueView)>)
    ensures
        keyed_wf(attribute_map(pairs)),
    decreases pairs.len(),
{
    if pairs.len() > 0 {
        lemma_attribute_map_wf(pairs.drop_last());
        lemma_slot_exists(attribute_map(pairs.drop_last()), pairs.last().0);
        lemma_upsert_wf(attribute_map(pairs.drop_last()), pairs.last().0, pairs.last().1);
    }
}

impl PluginHeadEntry {
    pub closed spec fn tag_text(&self) -> Seq<char> {
        self.tag@
    }

    pub closed spec fn children_text(&self) -> Option<Seq<char>> {
        opt_text(self.children)
    }

    pub closed spec fn attributes(&self) -> Seq<(Seq<char>, AttributeValueView)> {
        attr_view(self.attrs@)
    }

    pub closed spec fn wf(&self) -> bool {
        keyed_wf(self.attributes())
    }

    /// An entry for `tag` with the attributes `attrs`, kept by name; of two
    /// attributes of one name the later is kept.
    pub fn new(tag: String, attrs: Vec<(String, HeadAttributeValue)>, children: Option<String>) -> (r: PluginHeadEntry)
        ensures
            r.wf(),
            r.tag_text() == tag@,
            r.children_text() == opt_text(children),
            r.attributes() == attribute_map(attr_view(attrs@)),
    {
        let mut kept: Vec<(String, HeadAttributeValue)> = Vec::new();
        let mut i: usize = 0;
        assert(attr_view(kept@) =~= attribute_map(attr_view(attrs@).subrange(0, 0)));
        while i < attrs.len()
            invariant
                i <= attrs.len(),
                attr_view(kept@) == attribute_map(attr_view(attrs@).subrange(0, i as int)),
                keyed_wf(attr_view(kept@)),
            decreases attrs.len() - i,
        {
            let ghost e = attr_view(kept@);
            let name = &attrs[i].0;
            let value = copy_value(&attrs[i].1);
            let (slot, found) = locate::<HeadAttributeValue, AttributeValueView>(&kept, name.as_str(), Ghost(e));
            proof {
                lemma_slot_exists(e, name@);
                lemma_upsert_wf(e, name@, value@);
                assert(attr_view(attrs@).subrange(0, i + 1).drop_last() =~= attr_view(attrs@).subrange(
                    0,
                    i as int,
                ));
            }
            if found {
                kept.set(slot, (name.clone(), value));
                assert(attr_view(kept@) =~= e.update(slot as int, (name@, attrs@[i as int].1@)));
            } else {
                kept.insert(slot, (name.clone(), value));
                assert(attr_view(kept@) =~= e.insert(slot as int, (name@, attrs@[i as int].1@)));
            }
            i += 1;
        }
        assert(attr_view(attrs@).subrange(0, i as int) =~= attr_view(attrs@));
        proof {
            lemma_attribute_map_wf(attr_view(attrs@));
        }
        PluginHeadEntry { tag, attrs: kept, children }
    }
}

/// Elements legal inside `<head>`.
pub open spec fn allowed_tag(t: Seq<char>) -> bool {
    t == "link"@ || t == "meta"@ || t == "noscript"@ || t == "script"@ || t == "style"@
}

/// Elements whose content is raw text.
pub open spec fn raw_text_tag(t: Seq<char>) -> bool {
    t == "noscript"@ || t == "script"@ || t == "style"@
}

/// Void elements, which never get a closing tag.
pub open spec fn void_tag(t: Seq<char>) -> bool {
    t == "link"@ || t == "meta"@
}

/// An attribute name written unescaped cannot open another attribute or
/// close the tag: an ASCII letter, then letters, digits, `:`, `_`, `.` or
/// `-`.
pub open spec fn safe_attribute_name(name: Seq<char>) -> bool {
    &&& name.len() > 0
    &&& is_ascii_alpha(name[0])
    &&& forall|i: int|
        1 <= i < name.len() ==> (is_ascii_alnum(#[trigger] name[i]) || name[i] == ':' || name[i] == '_'
            || name[i] == '.' || name[i] == '-')
}

/// Scalars become attribute values; `false` and structured values drop the
/// attribute.
pub open spec fn attribute_value(v: AttributeValueView) -> Option<Seq<char>> {
    match v {
        AttributeValueView::Text(t) => Some(t),
        AttributeValueView::Number(n) => Some(n),
        AttributeValueView::Flag(true) => Some("true"@),
        _ => None,
    }
}

/// `text`, in any case, holds `</tag`.
pub open spec fn has_close_tag(text: Seq<char>, tag: Seq<char>) -> bool {
    find_from(lower_all(text), "</"@ + tag, 0) != -1
}

pub open spec fn attributes_html(attrs: Seq<(Seq<char>, AttributeValueView)>) -> Seq<char>
    decreases attrs.len(),
{
    if attrs.len() == 0 {
        Seq::empty()
    } else {
        let (name, value) = attrs.last();
        attributes_html(attrs.drop_last()) + if safe_attribute_name(name) && attribute_value(value) is Some {
            " "@ + name + "=\""@ + escaped(attribute_value(value)->0) + "\""@
        } else {
            Seq::empty()
        }
    }
}

pub open spec fn entry_html(tag: Seq<char>, attrs: Seq<(Seq<char>, AttributeValueView)>, children: Option<Seq<char>>) -> Seq<char> {
    let t = lower_all(tag);
    if !allowed_tag(t) {
        Seq::empty()
    } else if void_tag(t) {
        "<"@ + t + attributes_html(attrs) + ">"@
    } else {
        "<"@ + t + attributes_html(attrs) + ">"@ + match children {
            Some(c) => if raw_text_tag(t) && !has_close_tag(c, t) {
                c
            } else {
                Seq::empty()
            },
            None => Seq::empty(),
        } + "</"@ + t + ">"@
    }
}


pub open spec fn head_html(entries: Seq<PluginHeadEntry>) -> Seq<char>
    decreases entries.len(),
{
    if entries.len() == 0 {
        Seq::empty()
    } else {
        let e = entries.last();
        head_html(entries.drop_last()) + entry_html(e.tag_text(), e.attributes(), e.children_text())
    }
}

fn is_tag(t: &Vec<char>, lit: &str) -> (r: bool)
    ensures
        r == (t@ == lit@),
{
    crate::text::chars_eq(t.as_slice(), str_chars(lit).as_slice())
}

fn is_safe_attribute_name(name: &str) -> (r: bool)
    ensures
        r == safe_attribute_name(name@),
{
    let v = str_chars(name);
    if v.len() == 0 || !ascii_alpha(v[0]) {
        return false;
    }
    let mut i: usize = 1;
    while i < v.len()
        invariant
            1 <= i <= v.len(),
            v@ == name@,
            forall|k: int|
                1 <= k < i ==> (is_ascii_alnum(#[trigger] v@[k]) || v@[k] == ':' || v@[k] == '_'
                    || v@[k] == '.' || v@[k] == '-'),
        decreases v.len() - i,
    {
        let c = v[i];
        if !(ascii_alnum(c) || c == ':' || c == '_' || c == '.' || c == '-') {
            return false;
        }
        i += 1;
    }
    true
}

fn contains_close_tag(text: &str, tag: &Vec<char>) -> (r: bool)
    ensures
        r == has_close_tag(text@, tag@),
{
    let lowered = to_ascii_lowercase(&str_chars(text));
    let mut needle = str_chars("</");
    let mut i: usize = 0;
    while i < tag.len()
        invariant
            i <= tag.len(),
            needle@ == "</"@ + tag@.subrange(0, i as int),
        decreases tag.len() - i,
    {
        needle.push(tag[i]);
        i += 1;
        assert(needle@ =~= "</"@ + tag@.subrange(0, i as int));
    }
    assert(tag@.subrange(0, i as int) =~= tag@);
    find_text(&lowered, &needle).is_some()
}

fn push_attributes(out: &mut Vec<char>, attrs: &Vec<(String, HeadAttributeValue)>)
    ensures
        final(out)@ == old(out)@ + attributes_html(attr_view(attrs@)),
{
    let ghost a = attr_view(attrs@);
    let mut i: usize = 0;
    assert(a.subrange(0, 0) =~= Seq::<(Seq<char>, AttributeValueView)>::empty());
    while i < attrs.len()
        invariant
            i <= attrs.len(),
            a == attr_view(attrs@),
            out@ == old(out)@ + attributes_html(a.subrange(0, i as int)),
        decreases attrs.len() - i,
    {
        let name = &attrs[i].0;
        let value: Option<&str> = match &attrs[i].1 {
            HeadAttributeValue::Text(t) => Some(t.as_str()),
            HeadAttributeValue::Number(n) => Some(n.as_str()),
            HeadAttributeValue::Flag(true) => Some("true"),
            _ => None,
        };
        assert(a.subrange(0, i + 1).drop_last() =~= a.subrange(0, i as int));
        assert(a.subrange(0, i + 1).last() == a[i as int]);
        if is_safe_attribute_name(name.as_str()) {
            if let Some(v) = value {
                push_str(out, " ");
                push_str(out, name.as_str());
                push_str(out, "=\"");
                push_escaped(out, v);
                push_str(out, "\"");
            }
        }
        i += 1;
        assert(out@ =~= old(out)@ + attributes_html(a.subrange(0, i as int)));
    }
    assert(a.subrange(0, i as int) =~= a);
}

/// Renders the declared entries into a `<head>` fragment, skipping what
/// could break out of the head.
pub fn render_plugin_head(entries: &[PluginHeadEntry]) -> (r: String)
    ensures
        r@ == head_html(entries@),
{
    let mut html: Vec<char> = Vec::new();
    let mut i: usize = 0;
    assert(entries@.subrange(0, 0) =~= Seq::<PluginHeadEntry>::empty());
    while i < entries.len()
        invariant
            i <= entries.len(),
            html@ == head_html(entries@.subrange(0, i as int)),
        decreases entries.len() - i,
    {
        let entry = &entries[i];
        assert(entries@.subrange(0, i + 1).drop_last() =~= entries@.subrange(0, i as int));
        assert(entries@.subrange(0, i + 1).last() == entries@[i as int]);
        let tag = to_ascii_lowercase(&str_chars(entry.tag.as_str()));
        let allowed = is_tag(&tag, "link") || is_tag(&tag, "meta") || is_tag(&tag, "noscript")
            || is_tag(&tag, "script") || is_tag(&tag, "style");
        if allowed {
            let ghost before = html@;
            html.push('<');
            crate::text::push_chars(&mut html, &tag);
            push_attributes(&mut html, &entry.attrs);
            html.push('>');
            if !(is_tag(&tag, "link") || is_tag(&tag, "meta")) {
                if let Some(children) = &entry.children {
                    if !contains_close_tag(children.as_str(), &tag) {
                        push_str(&mut html, children.as_str());
                    }
                }
                push_str(&mut html, "</");
                crate::text::push_chars(&mut html, &tag);
                html.push('>');
            }
            proof {
                reveal_strlit("<");
                reveal_strlit(">");
                reveal_strlit("</");
            }
            assert(html@ =~= before + entry_html(entry.tag_text(), entry.attributes(), entry.children_text()));
        }
        i += 1;
    }
    assert(entries@.subrange(0, i as int) =~= entries@);
    string_from_chars(html.as_slice())
}

} // verus!
