//! Named presets for well-known ports.

use vstd::prelude::*;

use crate::errors::Errors;
use crate::text::{
    all_digits, ascii_lowercase, chars_equal, chars_of, digit_value, digits_value, is_digit, lemma_digits_value_bound, pow10,
};

verus! {

/// The presets, by name. A value is either a port text (protocol letter and
/// number) or the name of another preset.
pub open spec fn preset_table() -> Seq<(&'static str, &'static str)> {
    seq![
        ("ssh", "T22"),
        ("ftp", "T21"),
        ("dns", "T53"),
        ("postgresql", "T5432"),
        ("vite-dev", "T5173"),
        ("vite-preview", "T4173"),
        ("vite-build", "vite-preview"),
        ("mc-java", "T25565"),
        ("mc-bedrock", "U19132"),
        ("rdp", "T3389"),
        ("mysql", "T3306"),
        ("ms-sql", "T1433"),
        ("mongodb", "T27017"),
        ("http", "T80"),
        ("https", "T443"),
        ("redis", "T6379"),
        ("smtp", "T25"),
        ("smtps", "T465"),
        ("imap", "T143"),
        ("imaps", "T993"),
        ("pop3", "T110"),
        ("pop3s", "T995"),
        ("telnet", "T23"),
        ("memcached", "T11211"),
        ("elasticsearch", "T9200"),
        ("rabbitmq", "T5672"),
        ("k8s-api", "T6443"),
        ("next-dev", "T3000"),
        ("cra-dev", "next-dev"),
        ("create-react-app-dev", "cra-dev"),
    ]
}

/// The value of the first entry of `entries` named `name`.
pub open spec fn lookup_preset(entries: Seq<(&'static str, &'static str)>, name: Seq<char>) -> Option<&'static str>
    decreases entries.len(),
{
    if entries.len() == 0 {
        None
    } else if entries[0].0@ == name {
        Some(entries[0].1)
    } else {
        lookup_preset(entries.drop_first(), name)
    }
}

/// The value of the preset named `name` (names are matched exactly).
pub open spec fn preset_value(name: Seq<char>) -> Option<&'static str> {
    lookup_preset(preset_table(), name)
}

fn preset_entries() -> (t: Vec<(&'static str, &'static str)>)
    ensures
        t@ == preset_table(),
{
    vec![
        ("ssh", "T22"),
        ("ftp", "T21"),
        ("dns", "T53"),
        ("postgresql", "T5432"),
        ("vite-dev", "T5173"),
        ("vite-preview", "T4173"),
        ("vite-build", "vite-preview"),
        ("mc-java", "T25565"),
        ("mc-bedrock", "U19132"),
        ("rdp", "T3389"),
        ("mysql", "T3306"),
        ("ms-sql", "T1433"),
        ("mongodb", "T27017"),
        ("http", "T80"),
        ("https", "T443"),
        ("redis", "T6379"),
        ("smtp", "T25"),
        ("smtps", "T465"),
        ("imap", "T143"),
        ("imaps", "T993"),
        ("pop3", "T110"),
        ("pop3s", "T995"),
        ("telnet", "T23"),
        ("memcached", "T11211"),
        ("elasticsearch", "T9200"),
        ("rabbitmq", "T5672"),
        ("k8s-api", "T6443"),
        ("next-dev", "T3000"),
        ("cra-dev", "next-dev"),
        ("create-react-app-dev", "cra-dev"),
    ]
}

/// The value of the preset whose name is spelt by `name`.
pub fn find_preset(name: &[char]) -> (r: Option<&'static str>)
    ensures
        r == preset_value(name@),
{
    let entries = preset_entries();
    let mut i: usize = 0;
    assert(preset_table().skip(0) =~= preset_table());
    while i < entries.len()
        invariant
            entries@ == preset_table(),
            i <= entries.len(),
            lookup_preset(preset_table(), name@) == lookup_preset(preset_table().skip(i as int), name@),
        decreases entries.len() - i,
    {
        let (key, value) = entries[i];
        proof {
            assert(preset_table().skip(i as int)[0] == preset_table()[i as int]);
            assert(preset_table().skip(i as int).drop_first() =~= preset_table().skip(i + 1));
        }
        if chars_equal(name, key) {
            return Some(value);
        }
        i = i + 1;
    }
    None
}

/// The raw value of the preset named `value`: a port text such as `T22`, or
/// the name of another preset. The name must match exactly.
pub fn preset(value: &str) -> (r: Result<&str, Errors>)
    ensures
        match preset_value(value@) {
            Some(v) => r == Ok::<&str, Errors>(v),
            None => r matches Err(Errors::InvalidPreset(s)) && s@ == value@,
        },
{
    let name = chars_of(value);
    match find_preset(name.as_slice()) {
        Some(v) => Ok(v),
        None => Err(Errors::InvalidPreset(String::from_str(value))),
    }
}

/// The characters of the texts in the preset table.
pub proof fn lemma_preset_literals()
    ensures
        "ssh"@ == seq!['s', 's', 'h'],
        "T22"@ == seq!['T', '2', '2'],
        "ftp"@ == seq!['f', 't', 'p'],
        "T21"@ == seq!['T', '2', '1'],
        "dns"@ == seq!['d', 'n', 's'],
        "T53"@ == seq!['T', '5', '3'],
        "postgresql"@ == seq!['p', 'o', 's', 't', 'g', 'r', 'e', 's', 'q', 'l'],
        "T5432"@ == seq!['T', '5', '4', '3', '2'],
        "vite-dev"@ == seq!['v', 'i', 't', 'e', '-', 'd', 'e', 'v'],
        "T5173"@ == seq!['T', '5', '1', '7', '3'],
        "vite-preview"@ == seq!['v', 'i', 't', 'e', '-', 'p', 'r', 'e', 'v', 'i', 'e', 'w'],
        "T4173"@ == seq!['T', '4', '1', '7', '3'],
        "vite-build"@ == seq!['v', 'i', 't', 'e', '-', 'b', 'u', 'i', 'l', 'd'],
        "mc-java"@ == seq!['m', 'c', '-', 'j', 'a', 'v', 'a'],
        "T25565"@ == seq!['T', '2', '5', '5', '6', '5'],
        "mc-bedrock"@ == seq!['m', 'c', '-', 'b', 'e', 'd', 'r', 'o', 'c', 'k'],
        "U19132"@ == seq!['U', '1', '9', '1', '3', '2'],
        "rdp"@ == seq!['r', 'd', 'p'],
        "T3389"@ == seq!['T', '3', '3', '8', '9'],
        "mysql"@ == seq!['m', 'y', 's', 'q', 'l'],
        "T3306"@ == seq!['T', '3', '3', '0', '6'],
        "ms-sql"@ == seq!['m', 's', '-', 's', 'q', 'l'],
        "T1433"@ == seq!['T', '1', '4', '3', '3'],
        "mongodb"@ == seq!['m', 'o', 'n', 'g', 'o', 'd', 'b'],
        "T27017"@ == seq!['T', '2', '7', '0', '1', '7'],
        "http"@ == seq!['h', 't', 't', 'p'],
        "T80"@ == seq!['T', '8', '0'],
        "https"@ == seq!['h', 't', 't', 'p', 's'],
        "T443"@ == seq!['T', '4', '4', '3'],
        "redis"@ == seq!['r', 'e', 'd', 'i', 's'],
        "T6379"@ == seq!['T', '6', '3', '7', '9'],
        "smtp"@ == seq!['s', 'm', 't', 'p'],
        "T25"@ == seq!['T', '2', '5'],
        "smtps"@ == seq!['s', 'm', 't', 'p', 's'],
        "T465"@ == seq!['T', '4', '6', '5'],
        "imap"@ == seq!['i', 'm', 'a', 'p'],
        "T143"@ == seq!['T', '1', '4', '3'],
        "imaps"@ == seq!['i', 'm', 'a', 'p', 's'],
        "T993"@ == seq!['T', '9', '9', '3'],
        "pop3"@ == seq!['p', 'o', 'p', '3'],
        "T110"@ == seq!['T', '1', '1', '0'],
        "pop3s"@ == seq!['p', 'o', 'p', '3', 's'],
        "T995"@ == seq!['T', '9', '9', '5'],
        "telnet"@ == seq!['t', 'e', 'l', 'n', 'e', 't'],
        "T23"@ == seq!['T', '2', '3'],
        "memcached"@ == seq!['m', 'e', 'm', 'c', 'a', 'c', 'h', 'e', 'd'],
        "T11211"@ == seq!['T', '1', '1', '2', '1', '1'],
        "elasticsearch"@ == seq!['e', 'l', 'a', 's', 't', 'i', 'c', 's', 'e', 'a', 'r', 'c', 'h'],
        "T9200"@ == seq!['T', '9', '2', '0', '0'],
        "rabbitmq"@ == seq!['r', 'a', 'b', 'b', 'i', 't', 'm', 'q'],
        "T5672"@ == seq!['T', '5', '6', '7', '2'],
        "k8s-api"@ == seq!['k', '8', 's', '-', 'a', 'p', 'i'],
        "T6443"@ == seq!['T', '6', '4', '4', '3'],
        "next-dev"@ == seq!['n', 'e', 'x', 't', '-', 'd', 'e', 'v'],
        "T3000"@ == seq!['T', '3', '0', '0', '0'],
        "cra-dev"@ == seq!['c', 'r', 'a', '-', 'd', 'e', 'v'],
        "create-react-app-dev"@ == seq!['c', 'r', 'e', 'a', 't', 'e', '-', 'r', 'e', 'a', 'c', 't', '-', 'a', 'p', 'p', '-', 'd', 'e', 'v'],
{
    reveal_strlit("ssh");
    reveal_strlit("T22");
    reveal_strlit("ftp");
    reveal_strlit("T21");
    reveal_strlit("dns");
    reveal_strlit("T53");
    reveal_strlit("postgresql");
    reveal_strlit("T5432");
    reveal_strlit("vite-dev");
    reveal_strlit("T5173");
    reveal_strlit("vite-preview");
    reveal_strlit("T4173");
    reveal_strlit("vite-build");
    reveal_strlit("mc-java");
    reveal_strlit("T25565");
    reveal_strlit("mc-bedrock");
    reveal_strlit("U19132");
    reveal_strlit("rdp");
    reveal_strlit("T3389");
    reveal_strlit("mysql");
    reveal_strlit("T3306");
    reveal_strlit("ms-sql");
    reveal_strlit("T1433");
    reveal_strlit("mongodb");
    reveal_strlit("T27017");
    reveal_strlit("http");
    reveal_strlit("T80");
    reveal_strlit("https");
    reveal_strlit("T443");
    reveal_strlit("redis");
    reveal_strlit("T6379");
    reveal_strlit("smtp");
    reveal_strlit("T25");
    reveal_strlit("smtps");
    reveal_strlit("T465");
    reveal_strlit("imap");
    reveal_strlit("T143");
    reveal_strlit("imaps");
    reveal_strlit("T993");
    reveal_strlit("pop3");
    reveal_strlit("T110");
    reveal_strlit("pop3s");
    reveal_strlit("T995");
    reveal_strlit("telnet");
    reveal_strlit("T23");
    reveal_strlit("memcached");
    reveal_strlit("T11211");
    reveal_strlit("elasticsearch");
    reveal_strlit("T9200");
    reveal_strlit("rabbitmq");
    reveal_strlit("T5672");
    reveal_strlit("k8s-api");
    reveal_strlit("T6443");
    reveal_strlit("next-dev");
    reveal_strlit("T3000");
    reveal_strlit("cra-dev");
    reveal_strlit("create-react-app-dev");
}

/// Whether `s` starts like a port text: a protocol letter (either case)
/// followed by a digit.
pub open spec fn starts_like_port_text(s: Seq<char>) -> bool {
    &&& s.len() >= 2
    &&& (s[0] == 't' || s[0] == 'T' || s[0] == 'u' || s[0] == 'U')
    &&& is_digit(s[1])
}

/// Whether `s` holds no upper-case ASCII letter.
pub open spec fn has_no_upper(s: Seq<char>) -> bool {
    forall|k: int| 0 <= k < s.len() ==> !('A' <= #[trigger] s[k] && s[k] <= 'Z')
}

/// No preset name starts like a port text; names are nonempty and in lower
/// case.
pub proof fn lemma_names_are_not_port_texts()
    ensures
        forall|i: int| 0 <= i < preset_table().len() ==> !starts_like_port_text(#[trigger] preset_table()[i].0@),
        forall|i: int| 0 <= i < preset_table().len() ==> (#[trigger] preset_table()[i].0@).len() > 0,
        forall|i: int| 0 <= i < preset_table().len() ==> has_no_upper(#[trigger] preset_table()[i].0@),
{
    lemma_preset_literals();
}

/// Whether the value of preset `i` names another preset.
pub open spec fn is_alias_entry(i: int) -> bool {
    i == 6 || i == 28 || i == 29
}

/// Whether `s` is a protocol letter followed by a number of at most five
/// digits that starts with at most `2` when it has five.
pub open spec fn port_text_shape(s: Seq<char>) -> bool {
    &&& starts_like_port_text(s)
    &&& all_digits(s.drop_first())
    &&& (s.len() <= 5 || (s.len() == 6 && s[1] <= '2'))
}

/// Every preset value that names no other preset is a protocol letter
/// followed by a number that fits a port.
pub proof fn lemma_port_text_values()
    ensures
        forall|i: int| 0 <= i < preset_table().len() && !is_alias_entry(i) ==> starts_like_port_text(#[trigger] preset_table()[i].1@),
        forall|i: int| 0 <= i < preset_table().len() && !is_alias_entry(i) ==> port_text_shape(#[trigger] preset_table()[i].1@),
        forall|i: int| 0 <= i < preset_table().len() && !is_alias_entry(i) ==> (#[trigger] preset_table()[i].1@)[0] == 'T'
            || preset_table()[i].1@[0] == 'U',
{
    lemma_preset_literals();
}

/// The value that the lookup gives is the value of some entry with that name,
/// and there is none exactly when no entry has that name.
pub proof fn lemma_lookup_preset(entries: Seq<(&'static str, &'static str)>, name: Seq<char>)
    ensures
        lookup_preset(entries, name) is None <==> (forall|i: int| 0 <= i < entries.len() ==> #[trigger] entries[i].0@ != name),
        lookup_preset(entries, name) matches Some(v) ==> exists|i: int| 0 <= i < entries.len() && #[trigger] entries[i].0@ == name && entries[i].1 == v,
    decreases entries.len(),
{
    if entries.len() > 0 {
        let rest = entries.drop_first();
        lemma_lookup_preset(rest, name);
        if entries[0].0@ != name {
            assert forall|i: int| 0 <= i < rest.len() implies #[trigger] rest[i] == entries[i + 1] by {}
            if lookup_preset(rest, name) is None {
                assert forall|i: int| 0 <= i < entries.len() implies #[trigger] entries[i].0@ != name by {
                    if i > 0 {
                        assert(rest[i - 1] == entries[i]);
                    }
                }
            } else {
                let k = choose|k: int| 0 <= k < rest.len() && #[trigger] rest[k].0@ == name && rest[k].1 == lookup_preset(rest, name)->0;
                assert(entries[k + 1] == rest[k]);
            }
        }
    }
}

/// The lookup finds entry `j` when it is the first with that name.
proof fn lemma_lookup_first(entries: Seq<(&'static str, &'static str)>, name: Seq<char>, j: int)
    requires
        0 <= j < entries.len(),
        entries[j].0@ == name,
        forall|k: int| 0 <= k < j ==> #[trigger] entries[k].0@ != name,
    ensures
        lookup_preset(entries, name) == Some(entries[j].1),
    decreases j,
{
    if j > 0 {
        let rest = entries.drop_first();
        assert(rest[j - 1] == entries[j]);
        assert forall|k: int| 0 <= k < j - 1 implies #[trigger] rest[k].0@ != name by {
            assert(rest[k] == entries[k + 1]);
        }
        lemma_lookup_first(rest, name, j - 1);
    }
}

/// What a text stands for when taken as a preset name (in any case): the
/// text of that preset's value.
pub open spec fn alias_target(s: Seq<char>) -> Option<Seq<char>> {
    match preset_value(ascii_lowercase(s)) {
        Some(v) => Some(v@),
        None => None,
    }
}

/// How many times a text can be taken as a preset name before it names none
/// (counted up to four).
pub open spec fn alias_depth(s: Seq<char>) -> nat {
    match alias_target(s) {
        None => 0,
        Some(a) => match alias_target(a) {
            None => 1,
            Some(b) => match alias_target(b) {
                None => 2,
                Some(c) => match alias_target(c) {
                    None => 3,
                    Some(_) => 4,
                },
            },
        },
    }
}

proof fn lemma_lower_port_text(s: Seq<char>)
    requires
        starts_like_port_text(s),
    ensures
        starts_like_port_text(ascii_lowercase(s)),
        ascii_lowercase(s)[0] == 't' || ascii_lowercase(s)[0] == 'u',
{
}

/// A text that starts like a port text names no preset.
pub proof fn lemma_port_text_is_no_alias(s: Seq<char>)
    requires
        starts_like_port_text(s),
    ensures
        alias_target(s) is None,
{
    lemma_lower_port_text(s);
    lemma_names_are_not_port_texts();
    lemma_lookup_preset(preset_table(), ascii_lowercase(s));
    assert forall|i: int| 0 <= i < preset_table().len() implies #[trigger] preset_table()[i].0@ != ascii_lowercase(s) by {
        assert(!starts_like_port_text(preset_table()[i].0@));
    }
}

/// The values that name other presets, and what they stand for.
pub proof fn lemma_alias_entries()
    ensures
        alias_target(preset_table()[6].1@) == Some(preset_table()[5].1@),
        alias_target(preset_table()[28].1@) == Some(preset_table()[27].1@),
        alias_target(preset_table()[29].1@) == Some(preset_table()[28].1@),
        ascii_lowercase(preset_table()[6].1@) == preset_table()[6].1@,
        ascii_lowercase(preset_table()[28].1@) == preset_table()[28].1@,
        ascii_lowercase(preset_table()[29].1@) == preset_table()[29].1@,
{
    lemma_preset_literals();
    let t = preset_table();
    assert(ascii_lowercase(t[6].1@) =~= t[6].1@);
    assert(ascii_lowercase(t[28].1@) =~= t[28].1@);
    assert(ascii_lowercase(t[29].1@) =~= t[29].1@);
    lemma_lookup_first(t, t[6].1@, 5);
    assert forall|k: int| 0 <= k < 27 implies #[trigger] t[k].0@ != t[28].1@ by {
        if t[k].0@.len() == t[28].1@.len() {
            assert(t[k].0@[0] != t[28].1@[0]);
        }
    }
    lemma_lookup_first(t, t[28].1@, 27);
    assert forall|k: int| 0 <= k < 28 implies #[trigger] t[k].0@ != t[29].1@ by {
        if t[k].0@.len() == t[29].1@.len() {
            assert(t[k].0@[0] != t[29].1@[0]);
        }
    }
    lemma_lookup_first(t, t[29].1@, 28);
}

/// Following presets from any text ends after at most three steps, so every
/// step strictly lowers `alias_depth`.
pub proof fn lemma_alias_depth_decreases(s: Seq<char>)
    requires
        alias_target(s) is Some,
    ensures
        alias_depth(alias_target(s)->0) < alias_depth(s),
{
    let t = preset_table();
    let a = alias_target(s)->0;
    lemma_lookup_preset(t, ascii_lowercase(s));
    let i = choose|i: int| 0 <= i < t.len() && #[trigger] t[i].0@ == ascii_lowercase(s) && t[i].1 == preset_value(ascii_lowercase(s))->0;
    assert(a == t[i].1@);
    lemma_port_text_values();
    lemma_alias_entries();
    assert(starts_like_port_text(t[5].1@));
    assert(starts_like_port_text(t[27].1@));
    lemma_port_text_is_no_alias(t[5].1@);
    lemma_port_text_is_no_alias(t[27].1@);
    if !is_alias_entry(i) {
        assert(starts_like_port_text(t[i].1@));
        lemma_port_text_is_no_alias(a);
    }
}


/// The number in a text of port-text shape fits a port.
pub proof fn lemma_shape_number_fits(s: Seq<char>)
    requires
        port_text_shape(s),
    ensures
        digits_value(s.drop_first()) <= u16::MAX,
{
    let d = s.drop_first();
    lemma_digits_value_bound(d);
    reveal_with_fuel(pow10, 6);
    assert(is_digit(d[0]));
    assert(digit_value(d[0]) <= 9);
    if d.len() == 5 {
        assert(d[0] == s[1]);
        assert(digit_value(d[0]) <= 2);
        assert(pow10(4) == 10000);
        assert(digits_value(d) + 1 <= 30000) by (nonlinear_arith)
            requires
                digits_value(d) + 1 <= (digit_value(d[0]) + 1) * pow10((d.len() - 1) as nat),
                digit_value(d[0]) <= 2,
                d.len() == 5,
                pow10(4) == 10000,
        ;
    } else {
        assert(d.len() <= 4);
        assert(pow10((d.len() - 1) as nat) <= 1000);
        assert(digits_value(d) + 1 <= 10000) by (nonlinear_arith)
            requires
                digits_value(d) + 1 <= (digit_value(d[0]) + 1) * pow10((d.len() - 1) as nat),
                digit_value(d[0]) <= 9,
                pow10((d.len() - 1) as nat) <= 1000,
        ;
    }
}

/// Whether `v` is an upper-case protocol letter (`T` or `U`) followed by
/// the digits of a number that fits a port.
pub open spec fn is_port_value(v: Seq<char>) -> bool {
    &&& v.len() >= 2
    &&& (v[0] == 'T' || v[0] == 'U')
    &&& all_digits(v.drop_first())
    &&& digits_value(v.drop_first()) <= u16::MAX
}

/// Every preset value is either an upper-case protocol letter followed by
/// a number that fits a port, and then no preset name; or the name of
/// another preset, which is so exactly for `vite-build`, `cra-dev` and
/// `create-react-app-dev`.
pub proof fn lemma_preset_value_forms()
    ensures
        forall|i: int| 0 <= i < preset_table().len() ==> if is_alias_entry(i) {
            preset_value(#[trigger] preset_table()[i].1@) is Some
        } else {
            is_port_value(preset_table()[i].1@) && preset_value(preset_table()[i].1@) is None
        },
        preset_table()[6].0@ == "vite-build"@,
        preset_table()[28].0@ == "cra-dev"@,
        preset_table()[29].0@ == "create-react-app-dev"@,
{
    let t = preset_table();
    lemma_port_text_values();
    lemma_alias_entries();
    lemma_names_are_not_port_texts();
    assert forall|i: int| 0 <= i < t.len() implies if is_alias_entry(i) {
        preset_value(#[trigger] t[i].1@) is Some
    } else {
        is_port_value(t[i].1@) && preset_value(t[i].1@) is None
    } by {
        let v = t[i].1@;
        if !is_alias_entry(i) {
            lemma_shape_number_fits(v);
            lemma_lookup_preset(t, v);
            assert forall|j: int| 0 <= j < t.len() implies #[trigger] t[j].0@ != v by {
                assert(!starts_like_port_text(t[j].0@));
            }
        }
    }
}

/// Following presets from any text takes at most three steps.
pub proof fn lemma_alias_chains_are_short(s: Seq<char>)
    ensures
        alias_depth(s) <= 3,
{
    if alias_target(s) is Some {
        let t = preset_table();
        let a = alias_target(s)->0;
        lemma_lookup_preset(t, ascii_lowercase(s));
        let i = choose|i: int| 0 <= i < t.len() && #[trigger] t[i].0@ == ascii_lowercase(s) && t[i].1 == preset_value(ascii_lowercase(s))->0;
        assert(a == t[i].1@);
        lemma_port_text_values();
        lemma_alias_entries();
        lemma_port_text_is_no_alias(t[5].1@);
        lemma_port_text_is_no_alias(t[27].1@);
        if !is_alias_entry(i) {
            lemma_port_text_is_no_alias(a);
        }
    }
}

} // verus!
