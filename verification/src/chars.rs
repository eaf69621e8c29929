use vstd::prelude::*;

verus! {

/// Platform-safe display characters.
///
/// On Windows (or when `RUSIZE_ASCII=1` is set), all Unicode box-drawing
/// and emoji characters are replaced with pure ASCII equivalents so the
/// output renders correctly in `cmd.exe` and legacy PowerShell.
pub struct Chars {
    // Tree connectors
    pub branch: &'static str,
    pub last_branch: &'static str,
    pub vertical: &'static str,
    // Bar chart
    pub bar_full: &'static str,
    pub bar_empty: &'static str,
    // Banner frame
    pub tl: &'static str,
    pub tr: &'static str,
    pub bl: &'static str,
    pub br: &'static str,
    pub hz: &'static str,
    pub vt: &'static str,
    // Icons
    pub bolt: &'static str,
    pub search: &'static str,
    pub folder: &'static str,
    pub system: &'static str,
    pub warn: &'static str,
    pub info: &'static str,
    pub sigma: &'static str,
    pub check: &'static str,
    pub arrow: &'static str,
    pub cross: &'static str,
    pub chart: &'static str,
}

/// The ASCII-safe character set for Windows and legacy terminals.
pub open spec fn is_ascii_set(c: Chars) -> bool {
    &&& c.branch@ == "|-- "@
    &&& c.last_branch@ == "+-- "@
    &&& c.vertical@ == "|   "@
    &&& c.bar_full@ == "#"@
    &&& c.bar_empty@ == "-"@
    &&& c.tl@ == "+"@
    &&& c.tr@ == "+"@
    &&& c.bl@ == "+"@
    &&& c.br@ == "+"@
    &&& c.hz@ == "="@
    &&& c.vt@ == "|"@
    &&& c.bolt@ == ">>"@
    &&& c.search@ == "[*]"@
    &&& c.folder@ == "[D]"@
    &&& c.system@ == "[S]"@
    &&& c.warn@ == "[!]"@
    &&& c.info@ == "[i]"@
    &&& c.sigma@ == "[=]"@
    &&& c.check@ == "[OK]"@
    &&& c.arrow@ == "=>"@
    &&& c.cross@ == "[X]"@
    &&& c.chart@ == "[~]"@
}

/// The Unicode character set for modern terminals (Linux, macOS, Windows Terminal).
pub open spec fn is_unicode_set(c: Chars) -> bool {
    &&& c.branch@ == "\u{251C}\u{2500}\u{2500} "@
    &&& c.last_branch@ == "\u{2514}\u{2500}\u{2500} "@
    &&& c.vertical@ == "\u{2502}   "@
    &&& c.bar_full@ == "\u{2588}"@
    &&& c.bar_empty@ == "\u{2591}"@
    &&& c.tl@ == "\u{2554}"@
    &&& c.tr@ == "\u{2557}"@
    &&& c.bl@ == "\u{255A}"@
    &&& c.br@ == "\u{255D}"@
    &&& c.hz@ == "\u{2550}"@
    &&& c.vt@ == "\u{2551}"@
    &&& c.bolt@ == "\u{26A1}"@
    &&& c.search@ == "\u{1F50D}"@
    &&& c.folder@ == "\u{1F4C2}"@
    &&& c.system@ == "\u{1F5A5}\u{FE0F} "@
    &&& c.warn@ == "\u{26A0}\u{FE0F} "@
    &&& c.info@ == "\u{2139}"@
    &&& c.sigma@ == "\u{03A3}"@
    &&& c.check@ == "\u{2713}"@
    &&& c.arrow@ == "\u{25B6}"@
    &&& c.cross@ == "\u{2717}"@
    &&& c.chart@ == "\u{1F4CA}"@
}

/// The ASCII-safe character set.
pub fn ascii_chars() -> (c: Chars)
    ensures
        is_ascii_set(c),
{
    Chars {
        branch: "|-- ",
        last_branch: "+-- ",
        vertical: "|   ",
        bar_full: "#",
        bar_empty: "-",
        tl: "+",
        tr: "+",
        bl: "+",
        br: "+",
        hz: "=",
        vt: "|",
        bolt: ">>",
        search: "[*]",
        folder: "[D]",
        system: "[S]",
        warn: "[!]",
        info: "[i]",
        sigma: "[=]",
        check: "[OK]",
        arrow: "=>",
        cross: "[X]",
        chart: "[~]",
    }
}

/// The Unicode character set.
pub fn unicode_chars() -> (c: Chars)
    ensures
        is_unicode_set(c),
{
    Chars {
        branch: "\u{251C}\u{2500}\u{2500} ",
        last_branch: "\u{2514}\u{2500}\u{2500} ",
        vertical: "\u{2502}   ",
        bar_full: "\u{2588}",
        bar_empty: "\u{2591}",
        tl: "\u{2554}",
        tr: "\u{2557}",
        bl: "\u{255A}",
        br: "\u{255D}",
        hz: "\u{2550}",
        vt: "\u{2551}",
        bolt: "\u{26A1}",
        search: "\u{1F50D}",
        folder: "\u{1F4C2}",
        system: "\u{1F5A5}\u{FE0F} ",
        warn: "\u{26A0}\u{FE0F} ",
        info: "\u{2139}",
        sigma: "\u{03A3}",
        check: "\u{2713}",
        arrow: "\u{25B6}",
        cross: "\u{2717}",
        chart: "\u{1F4CA}",
    }
}

/// The character set for the platform: ASCII when `use_ascii` (on Windows,
/// or when `RUSIZE_ASCII` is set), Unicode otherwise.
pub fn get(use_ascii: bool) -> (c: Chars)
    ensures
        use_ascii ==> is_ascii_set(c),
        !use_ascii ==> is_unicode_set(c),
{
    if use_ascii {
        ascii_chars()
    } else {
        unicode_chars()
    }
}

} // verus!
