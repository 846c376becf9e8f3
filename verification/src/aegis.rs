//! Aegis: which certificates a node makes and which it shows.

use vstd::prelude::*;

verus! {

/// Certificates have to be made.
pub open spec fn must_generate(auto_generate: bool, cert_exists: bool, key_exists: bool) -> bool {
    auto_generate && !(cert_exists && key_exists)
}

/// Certificates that are there in full are never made anew, nor are any made
/// unasked; asked for, they are made where either file is missing.
pub proof fn law_certificates_are_made(cert_exists: bool, key_exists: bool, auto_generate: bool)
    ensures
        !must_generate(auto_generate, true, true),
        !must_generate(false, cert_exists, key_exists),
        must_generate(true, false, key_exists),
        must_generate(true, cert_exists, false),
{
}

/// Whether certificates have to be made: only if that is asked for, and one of
/// the two files is missing.
pub fn needs_generation(auto_generate: bool, cert_exists: bool, key_exists: bool) -> (r: bool)
    ensures
        r == (auto_generate && !(cert_exists && key_exists)),
        r == must_generate(auto_generate, cert_exists, key_exists),
{
    auto_generate && (!cert_exists || !key_exists)
}

/// Whether the client port shows a certificate of its own: only if both the
/// certificate and its key are named.
pub fn has_client_cert(client_cert: &str, client_key: &str) -> (r: bool)
    ensures
        r == (client_cert@.len() > 0 && client_key@.len() > 0),
{
    let a: usize = client_cert.unicode_len();
    let b: usize = client_key.unicode_len();
    a > 0 && b > 0
}

/// A name that a certificate is valid for.
#[derive(Debug)]
pub enum San {
    Dns(String),
    Ip(String),
}

/// What a name says.
pub enum SanView {
    Dns(Seq<char>),
    Ip(Seq<char>),
}

impl View for San {
    type V = SanView;

    open spec fn view(&self) -> SanView {
        match self {
            San::Dns(n) => SanView::Dns(n@),
            San::Ip(a) => SanView::Ip(a@),
        }
    }
}

/// What a list of names says.
pub open spec fn san_views(s: Seq<San>) -> Seq<SanView> {
    s.map_values(|n: San| n@)
}

/// What a name from the settings is.
#[derive(Debug, Clone, Copy, PartialEq, Eq, Structural)]
pub enum SanKind {
    Address,
    Name,
    /// It cannot stand in a certificate.
    Unusable,
}

/// What names from the settings say.
pub open spec fn extra_views(s: Seq<(String, SanKind)>) -> Seq<(Seq<char>, SanKind)> {
    s.map_values(|e: (String, SanKind)| (e.0@, e.1))
}

/// The names from the settings that can stand in a certificate, in order.
pub open spec fn usable(s: Seq<(Seq<char>, SanKind)>) -> Seq<SanView>
    decreases s.len(),
{
    if s.len() == 0 {
        Seq::empty()
    } else {
        let before = usable(s.drop_last());
        match s.last().1 {
            SanKind::Address => before.push(SanView::Ip(s.last().0)),
            SanKind::Name => before.push(SanView::Dns(s.last().0)),
            SanKind::Unusable => before,
        }
    }
}

/// The names of a node's certificate.
pub open spec fn node_names(local_ip: Option<Seq<char>>, extra: Seq<(Seq<char>, SanKind)>) -> Seq<SanView> {
    let fixed = seq![SanView::Dns("mneme.local"@), SanView::Dns("localhost"@), SanView::Ip("127.0.0.1"@)];
    let own = match local_ip {
        Some(a) => fixed.push(SanView::Ip(a)),
        None => fixed,
    };
    own + usable(extra)
}

/// The names of a node's certificate: its fixed names, the machine's own
/// address where there is one, and names from the settings.
pub fn san_list(local_ip: Option<String>, extra: &Vec<(String, SanKind)>) -> (r: Vec<San>)
    ensures
        san_views(r@) == node_names(
            match local_ip {
                Some(a) => Some(a@),
                None => None,
            },
            extra_views(extra@),
        ),
{
    let mut out: Vec<San> = Vec::new();
    out.push(San::Dns("mneme.local".to_string()));
    out.push(San::Dns("localhost".to_string()));
    out.push(San::Ip("127.0.0.1".to_string()));
    let ghost fixed = seq![SanView::Dns("mneme.local"@), SanView::Dns("localhost"@), SanView::Ip("127.0.0.1"@)];
    assert(san_views(out@) =~= fixed);
    if let Some(a) = local_ip {
        out.push(San::Ip(a));
        assert(san_views(out@) =~= fixed.push(SanView::Ip(a@)));
    }
    let ghost own = san_views(out@);
    let ghost ev = extra_views(extra@);
    let mut i: usize = 0;
    assert(own + usable(ev.take(0)) =~= own);
    while i < extra.len()
        invariant
            i <= extra@.len(),
            ev == extra_views(extra@),
            san_views(out@) == own + usable(ev.take(i as int)),
        decreases extra@.len() - i,
    {
        let ghost before = san_views(out@);
        assert(ev.take(i + 1).drop_last() =~= ev.take(i as int));
        assert(ev.take(i + 1).last() == (extra@[i as int].0@, extra@[i as int].1));
        match extra[i].1 {
            SanKind::Address => {
                out.push(San::Ip(extra[i].0.clone()));
                assert(san_views(out@) =~= before.push(SanView::Ip(extra@[i as int].0@)));
            },
            SanKind::Name => {
                out.push(San::Dns(extra[i].0.clone()));
                assert(san_views(out@) =~= before.push(SanView::Dns(extra@[i as int].0@)));
            },
            SanKind::Unusable => {},
        }
        assert(san_views(out@) =~= own + usable(ev.take(i + 1)));
        i = i + 1;
    }
    assert(ev.take(i as int) =~= ev);
    out
}

/// A certificate is valid for the node's fixed names, then for the machine's own
/// address, then for the names and addresses of the settings in their order;
/// what cannot stand in a certificate is left out.
pub proof fn law_certificate_names(ip: Seq<char>, extra: Seq<(Seq<char>, SanKind)>, name: Seq<char>)
    ensures
        node_names(None, Seq::empty()) == seq![
            SanView::Dns("mneme.local"@),
            SanView::Dns("localhost"@),
            SanView::Ip("127.0.0.1"@),
        ],
        node_names(Some(ip), Seq::empty()) == node_names(None, Seq::empty()).push(SanView::Ip(ip)),
        node_names(Some(ip), extra.push((name, SanKind::Address))) == node_names(Some(ip), extra).push(SanView::Ip(name)),
        node_names(Some(ip), extra.push((name, SanKind::Name))) == node_names(Some(ip), extra).push(SanView::Dns(name)),
        node_names(Some(ip), extra.push((name, SanKind::Unusable))) == node_names(Some(ip), extra),
{
    let a = extra.push((name, SanKind::Address));
    let b = extra.push((name, SanKind::Name));
    let c = extra.push((name, SanKind::Unusable));
    assert(a.drop_last() =~= extra && b.drop_last() =~= extra && c.drop_last() =~= extra);
    let none = Seq::<(Seq<char>, SanKind)>::empty();
    assert(usable(none) =~= Seq::empty());
    assert(node_names(None, none) =~= seq![
        SanView::Dns("mneme.local"@),
        SanView::Dns("localhost"@),
        SanView::Ip("127.0.0.1"@),
    ]);
    assert(node_names(Some(ip), none) =~= node_names(None, none).push(SanView::Ip(ip)));
    assert(node_names(Some(ip), a) =~= node_names(Some(ip), extra).push(SanView::Ip(name)));
    assert(node_names(Some(ip), b) =~= node_names(Some(ip), extra).push(SanView::Dns(name)));
}

} // verus!
