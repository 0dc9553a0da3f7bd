//! Picks a local model that fits the machine: reads what the probes report, sizes a
//! memory budget and looks the budget up in a table of models.
use vstd::prelude::*;
use crate::backend::text_view;
use crate::chars;
use crate::git;
use crate::text::{self, str_view};

verus! {

/// The model of a machine that was never looked at.
pub const DEFAULT_MODEL_ID: &'static str = "qwen2.5-0.5b-instruct";

/// The graphics processor, if any.
#[derive(Clone, Copy, Debug, PartialEq, Eq, Structural)]
pub enum GpuKind {
    /// None.
    CpuOnly,
    /// Memory shared with the main processor.
    Apple,
    Nvidia,
    Amd,
    Intel,
}

impl GpuKind {
    pub open spec fn name(self) -> Seq<char> {
        match self {
            GpuKind::CpuOnly => "cpu-only"@,
            GpuKind::Apple => "Apple Silicon (unified)"@,
            GpuKind::Nvidia => "NVIDIA"@,
            GpuKind::Amd => "AMD"@,
            GpuKind::Intel => "Intel"@,
        }
    }

    /// The name for humans.
    pub fn label(self) -> (r: &'static str)
        ensures
            r@ == self.name(),
    {
        match self {
            GpuKind::CpuOnly => "cpu-only",
            GpuKind::Apple => "Apple Silicon (unified)",
            GpuKind::Nvidia => "NVIDIA",
            GpuKind::Amd => "AMD",
            GpuKind::Intel => "Intel",
        }
    }
}

/// A machine.
#[derive(Debug)]
pub struct SystemProfile {
    pub os: String,
    pub arch: String,
    pub logical_cpus: usize,
    pub total_ram_mb: u64,
    pub gpu_kind: GpuKind,
    /// Memory of a graphics processor that has its own.
    pub vram_mb: Option<u64>,
    pub gpu_name: Option<String>,
}

/// `a / b` to the nearest whole number, the even one of two.
pub open spec fn half_even(a: int, b: int) -> int {
    let q = a / b;
    let r = a % b;
    if 2 * r > b || (2 * r == b && q % 2 == 1) {
        q + 1
    } else {
        q
    }
}

/// The distance from `mb` to the nearest whole number of gigabytes.
pub open spec fn off_whole(mb: int) -> int {
    let r = mb % 1024;
    if r <= 512 {
        r
    } else {
        1024 - r
    }
}

/// Megabytes for humans: megabytes below one gigabyte, whole gigabytes when they are
/// less than a twentieth off, gigabytes with one decimal otherwise.
pub open spec fn gb_text(mb: nat) -> Seq<char> {
    if mb < 1024 {
        chars::dec(mb) + " MB"@
    } else if 20 * off_whole(mb as int) < 1024 {
        chars::dec(((mb + 512) / 1024) as nat) + " GB"@
    } else {
        let tenths = half_even(10 * (mb as int), 1024) as nat;
        chars::dec(tenths / 10) + "."@ + chars::dec(tenths % 10) + " GB"@
    }
}

/// Megabytes for humans.
pub fn fmt_gb(mb: u64) -> (r: String)
    ensures
        r@ == gb_text(mb as nat),
{
    let mut out: String = String::new();
    if mb < 1024 {
        text::push_dec(&mut out, mb);
        assert(Seq::<char>::empty() + chars::dec(mb as nat) =~= chars::dec(mb as nat));
        out.push_str(" MB");
        return out;
    }
    let rest: u64 = mb % 1024;
    let off: u64 = if rest <= 512 { rest } else { 1024 - rest };
    if 20 * off < 1024 {
        let whole: u64 = ((mb as u128 + 512) / 1024) as u64;
        text::push_dec(&mut out, whole);
        assert(Seq::<char>::empty() + chars::dec(whole as nat) =~= chars::dec(whole as nat));
        out.push_str(" GB");
    } else {
        let q: u128 = 10 * (mb as u128) / 1024;
        let r: u128 = 10 * (mb as u128) % 1024;
        let tenths: u64 = if 2 * r > 1024 || (2 * r == 1024 && q % 2 == 1) {
            (q + 1) as u64
        } else {
            q as u64
        };
        text::push_dec(&mut out, tenths / 10);
        assert(Seq::<char>::empty() + chars::dec((tenths / 10) as nat) =~= chars::dec(
            (tenths / 10) as nat,
        ));
        out.push_str(".");
        text::push_dec(&mut out, tenths % 10);
        out.push_str(" GB");
    }
    out
}

/// The distance from `mb` to the nearest whole thousand.
pub open spec fn off_thousand(mb: int) -> int {
    let r = mb % 1000;
    if r <= 500 {
        r
    } else {
        1000 - r
    }
}

/// The size of a model's weights for humans. They are counted in decimal units, as
/// model files are: 4900 megabytes are 4.9 gigabytes.
pub open spec fn weights_text(mb: nat) -> Seq<char> {
    if mb < 1000 {
        chars::dec(mb) + " MB"@
    } else if 20 * off_thousand(mb as int) < 1000 {
        chars::dec(((mb + 500) / 1000) as nat) + " GB"@
    } else {
        let tenths = half_even(mb as int, 100) as nat;
        chars::dec(tenths / 10) + "."@ + chars::dec(tenths % 10) + " GB"@
    }
}

/// The size of a model's weights for humans.
pub fn fmt_weights(mb: u64) -> (r: String)
    ensures
        r@ == weights_text(mb as nat),
{
    let mut out: String = String::new();
    if mb < 1000 {
        text::push_dec(&mut out, mb);
        assert(Seq::<char>::empty() + chars::dec(mb as nat) =~= chars::dec(mb as nat));
        out.push_str(" MB");
        return out;
    }
    let rest: u64 = mb % 1000;
    let off: u64 = if rest <= 500 { rest } else { 1000 - rest };
    if 20 * off < 1000 {
        let whole: u64 = ((mb as u128 + 500) / 1000) as u64;
        text::push_dec(&mut out, whole);
        assert(Seq::<char>::empty() + chars::dec(whole as nat) =~= chars::dec(whole as nat));
        out.push_str(" GB");
    } else {
        let q: u64 = mb / 100;
        let r: u64 = mb % 100;
        let tenths: u64 = if 2 * r > 100 || (2 * r == 100 && q % 2 == 1) {
            q + 1
        } else {
            q
        };
        text::push_dec(&mut out, tenths / 10);
        assert(Seq::<char>::empty() + chars::dec((tenths / 10) as nat) =~= chars::dec(
            (tenths / 10) as nat,
        ));
        out.push_str(".");
        text::push_dec(&mut out, tenths % 10);
        out.push_str(" GB");
    }
    out
}

impl SystemProfile {
    pub open spec fn line(self) -> Seq<char> {
        chars::on_one_line(self.os@) + "/"@ + chars::on_one_line(self.arch@) + " · "@ + chars::dec(self.logical_cpus as nat) + " cores · "@
            + gb_text(self.total_ram_mb as nat) + " RAM"@ + (match (self.gpu_kind, self.vram_mb) {
            (GpuKind::CpuOnly, _) => " · cpu-only"@,
            (kind, Some(v)) => " · "@ + kind.name() + " ("@ + gb_text(v as nat) + " VRAM)"@,
            (kind, None) => " · "@ + kind.name(),
        })
    }

    /// The machine on one line.
    pub fn summary(&self) -> (r: String)
        ensures
            r@ == self.line(),
            !r@.contains('\n'),
    {
        proof {
            lemma_summary_line(*self);
        }
        let mut out = text::on_one_line(self.os.as_str());
        out.push_str("/");
        out.push_str(text::on_one_line(self.arch.as_str()).as_str());
        out.push_str(" · ");
        text::push_usize(&mut out, self.logical_cpus);
        out.push_str(" cores · ");
        out.push_str(fmt_gb(self.total_ram_mb).as_str());
        out.push_str(" RAM");
        if self.gpu_kind == GpuKind::CpuOnly {
            out.push_str(" · cpu-only");
            return out;
        }
        let mut tail = " · ".to_owned();
        tail.push_str(self.gpu_kind.label());
        if let Some(v) = self.vram_mb {
            tail.push_str(" (");
            tail.push_str(fmt_gb(v).as_str());
            tail.push_str(" VRAM)");
        }
        out.push_str(tail.as_str());
        out
    }
}

/// A number with a unit behind it stands on one line.
proof fn lemma_whole_line(n: nat)
    ensures
        !(chars::dec(n) + " MB"@).contains('\n'),
        !(chars::dec(n) + " GB"@).contains('\n'),
{
    reveal_strlit(" MB");
    reveal_strlit(" GB");
    chars::lemma_dec_digits(n);
}

/// A number with one decimal and a unit behind it stands on one line.
proof fn lemma_tenths_line(n: nat)
    ensures
        !(chars::dec(n / 10) + "."@ + chars::dec(n % 10) + " GB"@).contains('\n'),
{
    reveal_strlit(" GB");
    reveal_strlit(".");
    chars::lemma_dec_digits(n / 10);
    chars::lemma_dec_digits(n % 10);
}

proof fn lemma_size_line(mb: nat)
    ensures
        !gb_text(mb).contains('\n'),
{
    lemma_whole_line(mb);
    lemma_whole_line(((mb + 512) / 1024) as nat);
    lemma_tenths_line(half_even(10 * (mb as int), 1024) as nat);
}

proof fn lemma_weights_line(mb: nat)
    ensures
        !weights_text(mb).contains('\n'),
{
    lemma_whole_line(mb);
    lemma_whole_line(((mb + 500) / 1000) as nat);
    lemma_tenths_line(half_even(mb as int, 100) as nat);
}

proof fn lemma_summary_line(p: SystemProfile)
    ensures
        !p.line().contains('\n'),
{
    reveal_strlit("/");
    reveal_strlit(" · ");
    reveal_strlit(" cores · ");
    reveal_strlit(" RAM");
    reveal_strlit(" · cpu-only");
    reveal_strlit(" (");
    reveal_strlit(" VRAM)");
    reveal_strlit("NVIDIA");
    reveal_strlit("AMD");
    reveal_strlit("Apple Silicon (unified)");
    reveal_strlit("Intel");
    reveal_strlit("cpu-only");
    chars::lemma_dec_digits(p.logical_cpus as nat);
    lemma_size_line(p.total_ram_mb as nat);
    match p.vram_mb {
        Some(v) => lemma_size_line(v as nat),
        None => {},
    }
    assert(!chars::on_one_line(p.os@).contains('\n'));
    assert(!chars::on_one_line(p.arch@).contains('\n'));
    assert(!p.gpu_kind.name().contains('\n'));
    assert(!chars::dec(p.logical_cpus as nat).contains('\n'));
}

/// The number of the first line that starts with `MemTotal:`.
pub open spec fn mem_total(lines: Seq<Seq<char>>) -> Option<nat>
    decreases lines.len(),
{
    if lines.len() == 0 {
        None
    } else if chars::starts_with(lines[0], "MemTotal:"@) {
        let ws = chars::words(lines[0].skip(9));
        if ws.len() > 0 {
            chars::parse_nat(ws[0], u64::MAX as nat)
        } else {
            None
        }
    } else {
        mem_total(lines.skip(1))
    }
}

/// The kilobytes of memory in the contents of `/proc/meminfo`.
pub fn parse_meminfo_kb(contents: &str) -> (r: Option<u64>)
    ensures
        match r {
            Some(n) => mem_total(chars::lines(contents@)) == Some(n as nat),
            None => mem_total(chars::lines(contents@)) is None,
        },
{
    let all = text::chars_of(contents);
    let ls = text::lines(&all);
    let ghost lv = chars::lines(contents@);
    let mut i: usize = 0;
    assert(lv.skip(0) =~= lv);
    while i < ls.len()
        invariant
            lv == text::views(ls@),
            i <= lv.len(),
            mem_total(lv) == mem_total(lv.skip(i as int)),
            lv == chars::lines(contents@),
        decreases lv.len() - i,
    {
        let l = &ls[i];
        assert(lv.skip(i as int)[0] == l@);
        assert(lv.skip(i as int).skip(1) =~= lv.skip(i + 1));
        if text::starts_with(l, "MemTotal:") {
            proof {
                reveal_strlit("MemTotal:");
            }
            let ws = text::words(text::from(l, 9));
            let ghost wv = chars::words(l@.skip(9));
            assert(wv == text::views(ws@));
            if ws.len() > 0 {
                assert(wv[0] == ws@[0]@);
                return text::parse_u64(&ws[0], u64::MAX);
            }
            return None;
        }
        i += 1;
    }
    None
}

/// The megabytes that `sysctl` reports in bytes.
pub open spec fn memsize_mb(s: Seq<char>) -> Option<nat> {
    match chars::parse_nat(chars::trim(s), u64::MAX as nat) {
        Some(bytes) => Some(bytes / 1_048_576),
        None => None,
    }
}

/// The megabytes of memory: what `/proc/meminfo` says, or what `sysctl` says of
/// `hw.memsize`, or eight gigabytes.
pub fn total_ram_mb(meminfo: Option<&str>, memsize: Option<&str>) -> (r: u64)
    ensures
        r == ram_mb(str_view(meminfo), str_view(memsize)),
{
    if let Some(s) = meminfo {
        if let Some(kb) = parse_meminfo_kb(s) {
            return kb / 1024;
        }
    }
    if let Some(s) = memsize {
        let v = text::chars_of(s);
        if let Some(bytes) = text::parse_u64(text::trim(&v), u64::MAX) {
            return bytes / 1_048_576;
        }
    }
    8192
}

/// The megabytes of memory, as far as the probes say.
pub open spec fn ram_mb(meminfo: Option<Seq<char>>, memsize: Option<Seq<char>>) -> nat {
    let proc_kb = match meminfo {
        Some(s) => mem_total(chars::lines(s)),
        None => None,
    };
    match proc_kb {
        Some(kb) => (kb / 1024) as nat,
        None => match memsize {
            Some(s) => match memsize_mb(s) {
                Some(mb) => mb,
                None => 8192,
            },
            None => 8192,
        },
    }
}

/// The first line that says something.
pub open spec fn first_filled(lines: Seq<Seq<char>>) -> Option<Seq<char>>
    decreases lines.len(),
{
    if lines.len() == 0 {
        None
    } else if !chars::blank(lines[0]) {
        Some(lines[0])
    } else {
        first_filled(lines.skip(1))
    }
}

/// The memory and the name in the first row of an `nvidia-smi` listing.
pub open spec fn nvidia_row(s: Seq<char>) -> Option<(nat, Seq<char>)> {
    match first_filled(chars::lines(s)) {
        Some(l) => {
            let i = chars::find_char(l, ',');
            let (head, name) = if 0 <= i < l.len() {
                (l.take(i), chars::trim(l.skip(i + 1)))
            } else {
                (l, seq![])
            };
            match chars::parse_nat(chars::trim(head), u64::MAX as nat) {
                Some(n) => Some((n, name)),
                None => None,
            }
        },
        None => None,
    }
}

fn first_row(ls: &[Vec<char>]) -> (r: Option<usize>)
    ensures
        match r {
            Some(i) => i < ls@.len() && first_filled(text::views(ls@)) == Some(ls@[i as int]@),
            None => first_filled(text::views(ls@)) is None,
        },
{
    let ghost lv = text::views(ls@);
    let mut i: usize = 0;
    assert(lv.skip(0) =~= lv);
    while i < ls.len()
        invariant
            lv == text::views(ls@),
            i <= lv.len(),
            first_filled(lv) == first_filled(lv.skip(i as int)),
        decreases lv.len() - i,
    {
        assert(lv.skip(i as int)[0] == ls@[i as int]@);
        assert(lv.skip(i as int).skip(1) =~= lv.skip(i + 1));
        if !text::blank(&ls[i]) {
            return Some(i);
        }
        i += 1;
    }
    None
}

/// Reads the first row of an `nvidia-smi` listing of memory and name.
pub fn parse_nvidia_smi(listing: &str) -> (r: Option<(u64, String)>)
    ensures
        match r {
            Some((n, name)) => nvidia_row(listing@) == Some((n as nat, name@)),
            None => nvidia_row(listing@) is None,
        },
{
    let all = text::chars_of(listing);
    let ls = text::lines(&all);
    let i: usize = match first_row(&ls) {
        Some(i) => i,
        None => {
            return None;
        },
    };
    let l = &ls[i];
    let k = text::find_char(l, ',');
    if k < l.len() {
        match text::parse_u64(text::trim(text::upto(l, k)), u64::MAX) {
            Some(n) => Some((n, text::string_of(text::trim(text::from(l, k + 1))))),
            None => None,
        }
    } else {
        let none: String = String::new();
        assert(none@ =~= seq![]);
        match text::parse_u64(text::trim(l), u64::MAX) {
            Some(n) => Some((n, none)),
            None => None,
        }
    }
}

/// The megabytes of the first card that reports any bytes.
pub open spec fn amd_vram(cards: Seq<Seq<char>>) -> Option<nat>
    decreases cards.len(),
{
    if cards.len() == 0 {
        None
    } else {
        match chars::parse_nat(chars::trim(cards[0]), u64::MAX as nat) {
            Some(n) => if n > 0 {
                Some(n / 1_048_576)
            } else {
                amd_vram(cards.skip(1))
            },
            None => amd_vram(cards.skip(1)),
        }
    }
}

/// What the probes say of the graphics processor: the kind, its own memory, its
/// name. `nvidia` is the listing of `nvidia-smi` where it ran; `cards` holds what the
/// cards report of their memory.
pub fn gpu_of(os: &str, arch: &str, nvidia: Option<&str>, cards: &[String]) -> (r: (
    GpuKind,
    Option<u64>,
    Option<String>,
))
    ensures
        ({
            let row = match nvidia {
                Some(s) => nvidia_row(s@),
                None => None,
            };
            if os@ == "macos"@ && arch@ == "aarch64"@ {
                r.0 == GpuKind::Apple && r.1 is None && text_view(r.2) == Some("Apple Silicon"@)
            } else if let Some((n, name)) = row {
                r.0 == GpuKind::Nvidia && r.1 == Some(n as u64) && text_view(r.2) == Some(name)
            } else if let Some(mb) = amd_vram(text::str_views(cards@)) {
                r.0 == GpuKind::Amd && r.1 == Some(mb as u64) && r.2 is None
            } else {
                r.0 == GpuKind::CpuOnly && r.1 is None && r.2 is None
            }
        }),
{
    if text::eq(os, "macos") && text::eq(arch, "aarch64") {
        return (GpuKind::Apple, None, Some("Apple Silicon".to_owned()));
    }
    if let Some(s) = nvidia {
        if let Some((n, name)) = parse_nvidia_smi(s) {
            return (GpuKind::Nvidia, Some(n), Some(name));
        }
    }
    let ghost cv = text::str_views(cards@);
    let mut i: usize = 0;
    assert(cv.skip(0) =~= cv);
    while i < cards.len()
        invariant
            cv == text::str_views(cards@),
            i <= cv.len(),
            amd_vram(cv) == amd_vram(cv.skip(i as int)),
            !(os@ == "macos"@ && arch@ == "aarch64"@),
            match nvidia {
                Some(s) => nvidia_row(s@) is None,
                None => true,
            },
        decreases cv.len() - i,
    {
        assert(cv.skip(i as int)[0] == cards@[i as int]@);
        assert(cv.skip(i as int).skip(1) =~= cv.skip(i + 1));
        let c = text::chars_of(cards[i].as_str());
        if let Some(n) = text::parse_u64(text::trim(&c), u64::MAX) {
            if n > 0 {
                return (GpuKind::Amd, Some(n / 1_048_576), None);
            }
        }
        i += 1;
    }
    (GpuKind::CpuOnly, None, None)
}

/// The usable memory of a machine: a share of its main memory, or of the graphics
/// processor's own where that is more.
pub open spec fn budget_of(p: SystemProfile) -> int {
    let ram = p.total_ram_mb as int;
    let cpu = (if ram > 2048 {
        ram - 2048
    } else {
        0
    }) * 7 / 10;
    match p.gpu_kind {
        GpuKind::Apple => if ram * 7 / 10 > cpu {
            ram * 7 / 10
        } else {
            cpu
        },
        GpuKind::Nvidia | GpuKind::Amd => {
            let gpu = match p.vram_mb {
                Some(v) => v * 9 / 10,
                None => 0,
            };
            if gpu > cpu {
                gpu
            } else {
                cpu
            }
        },
        GpuKind::Intel | GpuKind::CpuOnly => cpu,
    }
}

/// The usable memory of a machine in megabytes.
pub fn memory_budget_mb(p: &SystemProfile) -> (r: u64)
    ensures
        r == budget_of(*p),
{
    let ram: u128 = p.total_ram_mb as u128;
    let cpu: u64 = ((p.total_ram_mb.saturating_sub(2048) as u128) * 7 / 10) as u64;
    match p.gpu_kind {
        GpuKind::Apple => {
            let shared: u64 = (ram * 7 / 10) as u64;
            if shared > cpu {
                shared
            } else {
                cpu
            }
        },
        GpuKind::Nvidia | GpuKind::Amd => {
            let gpu: u64 = match p.vram_mb {
                Some(v) => ((v as u128) * 9 / 10) as u64,
                None => 0,
            };
            if gpu > cpu {
                gpu
            } else {
                cpu
            }
        },
        GpuKind::Intel | GpuKind::CpuOnly => cpu,
    }
}

/// Law: the budget stays within what the machine has.
pub proof fn budget_is_affordable(p: SystemProfile)
    ensures
        0 <= budget_of(p),
        budget_of(p) <= p.total_ram_mb || (p.vram_mb matches Some(v) && budget_of(p) <= v),
{
}

/// Law: a discrete card counts whoever made it. With `v` megabytes of its own the budget
/// is nine tenths of them at least, and the same for both makers; the machine's memory
/// still counts where it gives more.
pub proof fn discrete_cards_count(p: SystemProfile, q: SystemProfile, v: u64)
    requires
        p.gpu_kind == GpuKind::Nvidia,
        q == (SystemProfile { gpu_kind: GpuKind::Amd, ..p }),
        p.vram_mb == Some(v),
    ensures
        budget_of(p) == budget_of(q),
        10 * budget_of(p) > 9 * v - 10,
        p.total_ram_mb >= 2048 ==> 10 * budget_of(p) > 7 * (p.total_ram_mb - 2048) - 10,
        10 * budget_of(p) <= 9 * v || 10 * budget_of(p) <= 7 * (p.total_ram_mb - 2048),
{
}

/// Law: without a card of its own a machine has seven tenths of what its memory leaves
/// beside the system, rounded down; where memory is shared with the graphics it has seven
/// tenths of all of it.
pub proof fn memory_counts_for_seven_tenths(p: SystemProfile)
    requires
        p.gpu_kind == GpuKind::CpuOnly || p.gpu_kind == GpuKind::Intel || p.gpu_kind
            == GpuKind::Apple || p.vram_mb is None,
    ensures
        p.gpu_kind == GpuKind::Apple ==> 7 * p.total_ram_mb - 10 < 10 * budget_of(p) <= 7
            * p.total_ram_mb,
        p.gpu_kind != GpuKind::Apple && p.total_ram_mb >= 2048 ==> 7 * (p.total_ram_mb - 2048) - 10
            < 10 * budget_of(p) <= 7 * (p.total_ram_mb - 2048),
        p.gpu_kind != GpuKind::Apple && p.total_ram_mb < 2048 ==> budget_of(p) == 0,
{
}

/// Law: more memory, or a larger card, never makes the budget smaller, and neither does
/// putting a card into a machine.
pub proof fn more_memory_gives_more_budget(p: SystemProfile, q: SystemProfile)
    requires
        p.gpu_kind == q.gpu_kind,
        p.total_ram_mb <= q.total_ram_mb,
        p.vram_mb matches Some(v) ==> (q.vram_mb matches Some(w) && v <= w),
    ensures
        budget_of(p) <= budget_of(q),
        budget_of(SystemProfile { gpu_kind: GpuKind::CpuOnly, ..p }) <= budget_of(p),
{
}

/// A model and the budget from which it is picked.
#[derive(Clone, Copy, Debug)]
pub struct ModelTier {
    pub min_budget_mb: u64,
    pub model_id: &'static str,
    pub hf_repo: &'static str,
    pub quant: &'static str,
    pub approx_size_mb: u64,
    pub params: &'static str,
}

/// The models, from the largest down.
pub open spec fn tier(i: int) -> ModelTier {
    if i == 0 {
        ModelTier {
            min_budget_mb: 44_000,
            model_id: "llama-3.3-70b-instruct",
            hf_repo: "bartowski/Llama-3.3-70B-Instruct-GGUF",
            quant: "Q4_K_M",
            approx_size_mb: 42_000,
            params: "70B",
        }
    } else if i == 1 {
        ModelTier {
            min_budget_mb: 22_000,
            model_id: "qwen2.5-32b-instruct",
            hf_repo: "bartowski/Qwen2.5-32B-Instruct-GGUF",
            quant: "Q4_K_M",
            approx_size_mb: 19_800,
            params: "32B",
        }
    } else if i == 2 {
        ModelTier {
            min_budget_mb: 18_500,
            model_id: "gemma-2-27b-it",
            hf_repo: "bartowski/gemma-2-27b-it-GGUF",
            quant: "Q4_K_M",
            approx_size_mb: 16_600,
            params: "27B",
        }
    } else if i == 3 {
        ModelTier {
            min_budget_mb: 11_000,
            model_id: "qwen2.5-14b-instruct",
            hf_repo: "bartowski/Qwen2.5-14B-Instruct-GGUF",
            quant: "Q4_K_M",
            approx_size_mb: 9_000,
            params: "14B",
        }
    } else if i == 4 {
        ModelTier {
            min_budget_mb: 6_500,
            model_id: "llama-3.1-8b-instruct",
            hf_repo: "bartowski/Meta-Llama-3.1-8B-Instruct-GGUF",
            quant: "Q4_K_M",
            approx_size_mb: 4_900,
            params: "8B",
        }
    } else if i == 5 {
        ModelTier {
            min_budget_mb: 3_500,
            model_id: "llama-3.2-3b-instruct",
            hf_repo: "bartowski/Llama-3.2-3B-Instruct-GGUF",
            quant: "Q4_K_M",
            approx_size_mb: 2_200,
            params: "3B",
        }
    } else if i == 6 {
        ModelTier {
            min_budget_mb: 2_000,
            model_id: "qwen2.5-1.5b-instruct",
            hf_repo: "bartowski/Qwen2.5-1.5B-Instruct-GGUF",
            quant: "Q4_K_M",
            approx_size_mb: 1_100,
            params: "1.5B",
        }
    } else {
        ModelTier {
            min_budget_mb: 0,
            model_id: "qwen2.5-0.5b-instruct",
            hf_repo: "bartowski/Qwen2.5-0.5B-Instruct-GGUF",
            quant: "Q4_K_M",
            approx_size_mb: 400,
            params: "0.5B",
        }
    }
}

/// Model `i` of the table, the last one beyond its end.
pub fn tier_at(i: usize) -> (r: ModelTier)
    ensures
        r == tier(i as int),
{
    if i == 0 {
        ModelTier {
            min_budget_mb: 44_000,
            model_id: "llama-3.3-70b-instruct",
            hf_repo: "bartowski/Llama-3.3-70B-Instruct-GGUF",
            quant: "Q4_K_M",
            approx_size_mb: 42_000,
            params: "70B",
        }
    } else if i == 1 {
        ModelTier {
            min_budget_mb: 22_000,
            model_id: "qwen2.5-32b-instruct",
            hf_repo: "bartowski/Qwen2.5-32B-Instruct-GGUF",
            quant: "Q4_K_M",
            approx_size_mb: 19_800,
            params: "32B",
        }
    } else if i == 2 {
        ModelTier {
            min_budget_mb: 18_500,
            model_id: "gemma-2-27b-it",
            hf_repo: "bartowski/gemma-2-27b-it-GGUF",
            quant: "Q4_K_M",
            approx_size_mb: 16_600,
            params: "27B",
        }
    } else if i == 3 {
        ModelTier {
            min_budget_mb: 11_000,
            model_id: "qwen2.5-14b-instruct",
            hf_repo: "bartowski/Qwen2.5-14B-Instruct-GGUF",
            quant: "Q4_K_M",
            approx_size_mb: 9_000,
            params: "14B",
        }
    } else if i == 4 {
        ModelTier {
            min_budget_mb: 6_500,
            model_id: "llama-3.1-8b-instruct",
            hf_repo: "bartowski/Meta-Llama-3.1-8B-Instruct-GGUF",
            quant: "Q4_K_M",
            approx_size_mb: 4_900,
            params: "8B",
        }
    } else if i == 5 {
        ModelTier {
            min_budget_mb: 3_500,
            model_id: "llama-3.2-3b-instruct",
            hf_repo: "bartowski/Llama-3.2-3B-Instruct-GGUF",
            quant: "Q4_K_M",
            approx_size_mb: 2_200,
            params: "3B",
        }
    } else if i == 6 {
        ModelTier {
            min_budget_mb: 2_000,
            model_id: "qwen2.5-1.5b-instruct",
            hf_repo: "bartowski/Qwen2.5-1.5B-Instruct-GGUF",
            quant: "Q4_K_M",
            approx_size_mb: 1_100,
            params: "1.5B",
        }
    } else {
        ModelTier {
            min_budget_mb: 0,
            model_id: "qwen2.5-0.5b-instruct",
            hf_repo: "bartowski/Qwen2.5-0.5B-Instruct-GGUF",
            quant: "Q4_K_M",
            approx_size_mb: 400,
            params: "0.5B",
        }
    }
}

/// How many models there are.
pub const TIERS: usize = 8;

/// The place of the first model whose budget is met.
pub open spec fn tier_for(budget: int) -> int {
    if budget >= 44_000 {
        0
    } else if budget >= 22_000 {
        1
    } else if budget >= 18_500 {
        2
    } else if budget >= 11_000 {
        3
    } else if budget >= 6_500 {
        4
    } else if budget >= 3_500 {
        5
    } else if budget >= 2_000 {
        6
    } else {
        7
    }
}

/// The largest model whose budget is met.
pub fn pick_tier(budget_mb: u64) -> (r: ModelTier)
    ensures
        r == tier(tier_for(budget_mb as int)),
        budget_mb >= r.min_budget_mb,
{
    let mut i: usize = 0;
    while i < TIERS - 1
        invariant
            i <= TIERS - 1,
            i <= tier_for(budget_mb as int),
        decreases TIERS - i,
    {
        let t = tier_at(i);
        if budget_mb >= t.min_budget_mb {
            assert(i == tier_for(budget_mb as int));
            return t;
        }
        i += 1;
    }
    tier_at(i)
}

/// Law: more memory never picks a smaller model, the budgets descend strictly, and
/// the last model is always affordable.
pub proof fn larger_budgets_pick_larger_models(a: int, b: int)
    requires
        a <= b,
    ensures
        tier_for(b) <= tier_for(a),
        0 <= tier_for(a) < TIERS,
        forall|i: int, j: int|
            0 <= i < j < TIERS ==> (#[trigger] tier(i)).min_budget_mb > (#[trigger] tier(
                j,
            )).min_budget_mb,
        tier(TIERS - 1).min_budget_mb == 0,
{
}

/// A model for a machine.
#[derive(Debug)]
pub struct Recommendation {
    pub model_id: String,
    pub hf_repo: String,
    pub quant: String,
    pub approx_size_mb: u64,
    pub params: String,
    pub budget_mb: u64,
    /// Why this model.
    pub rationale: String,
}

/// What the budget of a machine comes from.
pub open spec fn basis(p: SystemProfile) -> Seq<char> {
    match (p.gpu_kind, p.vram_mb) {
        (GpuKind::Apple, _) => gb_text(p.total_ram_mb as nat) + " unified memory"@,
        (GpuKind::Nvidia, Some(v)) | (GpuKind::Amd, Some(v)) => p.gpu_kind.name() + " "@ + gb_text(
            v as nat,
        ) + " VRAM"@,
        _ => gb_text(p.total_ram_mb as nat) + " system RAM (CPU)"@,
    }
}

pub open spec fn rationale_of(p: SystemProfile, t: ModelTier) -> Seq<char> {
    gb_text(budget_of(p) as nat) + " budget from "@ + basis(p) + " → "@ + t.params@ + " "@
        + t.quant@ + " fits (~"@ + gb_text(t.approx_size_mb as nat) + ")"@
}

fn basis_text(p: &SystemProfile) -> (r: String)
    ensures
        r@ == basis(*p),
{
    match (p.gpu_kind, p.vram_mb) {
        (GpuKind::Apple, _) => {
            let mut out = fmt_gb(p.total_ram_mb);
            out.push_str(" unified memory");
            out
        },
        (GpuKind::Nvidia, Some(v)) | (GpuKind::Amd, Some(v)) => {
            let mut out = p.gpu_kind.label().to_owned();
            out.push_str(" ");
            out.push_str(fmt_gb(v).as_str());
            out.push_str(" VRAM");
            out
        },
        _ => {
            let mut out = fmt_gb(p.total_ram_mb);
            out.push_str(" system RAM (CPU)");
            out
        },
    }
}

/// The model that fits a machine best.
pub fn recommend(p: &SystemProfile) -> (r: Recommendation)
    ensures
        ({
            let t = tier(tier_for(budget_of(*p)));
            &&& r.model_id@ == t.model_id@
            &&& r.hf_repo@ == t.hf_repo@
            &&& r.quant@ == t.quant@
            &&& r.approx_size_mb == t.approx_size_mb
            &&& r.params@ == t.params@
            &&& r.budget_mb == budget_of(*p)
            &&& r.rationale@ == rationale_of(*p, t)
        }),
{
    let budget_mb: u64 = memory_budget_mb(p);
    let t = pick_tier(budget_mb);
    let mut rationale = fmt_gb(budget_mb);
    rationale.push_str(" budget from ");
    rationale.push_str(basis_text(p).as_str());
    rationale.push_str(" → ");
    rationale.push_str(t.params);
    rationale.push_str(" ");
    rationale.push_str(t.quant);
    rationale.push_str(" fits (~");
    rationale.push_str(fmt_gb(t.approx_size_mb).as_str());
    rationale.push_str(")");
    Recommendation {
        model_id: t.model_id.to_owned(),
        hf_repo: t.hf_repo.to_owned(),
        quant: t.quant.to_owned(),
        approx_size_mb: t.approx_size_mb,
        params: t.params.to_owned(),
        budget_mb,
        rationale,
    }
}

/// How a model came to be selected.
#[derive(Clone, Copy, Debug, PartialEq, Eq, Structural)]
pub enum SelectionSource {
    /// By looking at the machine.
    Detected,
    /// By the operator.
    Operator,
}

/// The selected model.
#[derive(Debug)]
pub struct Selection {
    pub model_id: String,
    pub model_path: Option<String>,
    pub quant: String,
    pub source: SelectionSource,
    pub detected_at: u64,
    pub budget_mb: u64,
    pub profile_summary: String,
    pub params: String,
    pub hf_repo: String,
    pub approx_size_mb: u64,
}

/// A path of a directory and a name below it.
pub open spec fn joined(dir: Seq<char>, name: Seq<char>) -> Seq<char> {
    if dir.len() == 0 {
        name
    } else if dir.last() == '/' {
        dir + name
    } else {
        dir + "/"@ + name
    }
}

fn join_path(dir: &str, name: &str) -> (r: String)
    ensures
        r@ == joined(dir@, name@),
{
    let v = text::chars_of(dir);
    let n: usize = v.len();
    if n == 0 {
        return name.to_owned();
    }
    let mut out = dir.to_owned();
    if v[n - 1] != '/' {
        out.push_str("/");
    }
    out.push_str(name);
    out
}

/// The shell's directory in a home directory.
pub fn aish_dir(home: &str) -> (r: String)
    ensures
        r@ == joined(home@, ".aish"@),
{
    join_path(home, ".aish")
}

/// The directory of the shell's configuration.
pub fn config_dir(home: &str) -> (r: String)
    ensures
        r@ == joined(joined(home@, ".aish"@), "config"@),
{
    join_path(aish_dir(home).as_str(), "config")
}

/// The file of the selection.
pub fn selection_path(home: &str) -> (r: String)
    ensures
        r@ == joined(joined(joined(home@, ".aish"@), "config"@), "local-model.json"@),
{
    join_path(config_dir(home).as_str(), "local-model.json")
}

/// The file of selections of earlier releases.
pub fn legacy_selection_path(home: &str) -> (r: String)
    ensures
        r@ == joined(joined(home@, ".aish"@), "local-model.json"@),
{
    join_path(aish_dir(home).as_str(), "local-model.json")
}

/// The selected model's identifier, or the default's.
pub fn selected_model_id(stored: Option<&Selection>) -> (r: String)
    ensures
        r@ == (match stored {
            Some(s) => s.model_id@,
            None => DEFAULT_MODEL_ID@,
        }),
{
    match stored {
        Some(s) => s.model_id.clone(),
        None => DEFAULT_MODEL_ID.to_owned(),
    }
}

/// The place of the model of that identifier.
pub open spec fn tier_named(id: Seq<char>, i: nat) -> Option<int>
    decreases TIERS - i,
{
    if i >= TIERS {
        None
    } else if tier(i as int).model_id@ == id {
        Some(i as int)
    } else {
        tier_named(id, i + 1)
    }
}

/// The repository and the quantization of a model of the table.
pub fn repo_and_quant_for(model_id: &str) -> (r: Option<(String, String)>)
    ensures
        match r {
            Some((repo, quant)) => tier_named(model_id@, 0) matches Some(i) && repo@ == tier(
                i,
            ).hf_repo@ && quant@ == tier(i).quant@,
            None => tier_named(model_id@, 0) is None,
        },
{
    let mut i: usize = 0;
    while i < TIERS
        invariant
            i <= TIERS,
            tier_named(model_id@, 0) == tier_named(model_id@, i as nat),
        decreases TIERS - i,
    {
        let t = tier_at(i);
        if text::eq(t.model_id, model_id) {
            return Some((t.hf_repo.to_owned(), t.quant.to_owned()));
        }
        i += 1;
    }
    None
}

/// Whether a setting says something.
pub open spec fn given(s: Option<Seq<char>>) -> bool {
    s matches Some(v) && !chars::blank(v)
}

fn says(s: Option<&str>) -> (r: bool)
    ensures
        r == given(str_view(s)),
{
    match s {
        Some(v) => {
            let all = text::chars_of(v);
            !text::blank(&all)
        },
        None => false,
    }
}

/// What stands before the last dot, where there is one.
pub open spec fn before_last_dot(name: Seq<char>) -> Option<Seq<char>>
    decreases name.len(),
{
    if name.len() == 0 {
        None
    } else if name.last() == '.' {
        Some(name.drop_last())
    } else {
        before_last_dot(name.drop_last())
    }
}

/// A file's name without its extension. A name whose only dot comes first has none.
pub open spec fn stem_of(name: Seq<char>) -> Seq<char> {
    match before_last_dot(name) {
        Some(head) => if head.len() > 0 {
            head
        } else {
            name
        },
        None => name,
    }
}

/// The identifier of a model file: the stem of its name, or the whole path where it
/// has no name.
pub open spec fn file_id(path: Seq<char>) -> Seq<char> {
    match git::base_name(path) {
        Some(name) => stem_of(name),
        None => path,
    }
}

/// The identifier of a model file.
fn id_of_file(path: &str) -> (r: String)
    ensures
        r@ == file_id(path@),
{
    let name = match git::file_name(path) {
        Some(n) => n,
        None => {
            return path.to_owned();
        },
    };
    let v = text::chars_of(name.as_str());
    let mut i: usize = v.len();
    assert(v@.take(i as int) =~= v@);
    while i > 0
        invariant
            v@ == name@,
            git::base_name(path@) == Some(name@),
            i <= v@.len(),
            before_last_dot(v@) == before_last_dot(v@.take(i as int)),
        decreases i,
    {
        i -= 1;
        assert(v@.take(i + 1).drop_last() =~= v@.take(i as int));
        assert(v@.take(i + 1).last() == v@[i as int]);
        if v[i] == '.' {
            return if i > 0 {
                text::string_of(text::upto(&v, i))
            } else {
                name
            };
        }
    }
    name
}

/// What the operator pinned: a model on the command line, before a file and then an
/// identifier in the environment.
pub fn operator_pin(
    cli_model: Option<&str>,
    path: Option<&str>,
    id: Option<&str>,
) -> (r: Option<(String, Option<String>)>)
    ensures
        if given(str_view(cli_model)) {
            r matches Some((m, f)) && Some(m@) == str_view(cli_model) && f is None
        } else if given(str_view(path)) {
            r matches Some((m, Some(f))) && Some(f@) == str_view(path) && m@ == file_id(f@)
        } else if given(str_view(id)) {
            r matches Some((m, f)) && Some(m@) == str_view(id) && f is None
        } else {
            r is None
        },
{
    if says(cli_model) {
        if let Some(m) = cli_model {
            return Some((m.to_owned(), None));
        }
    }
    if says(path) {
        if let Some(p) = path {
            return Some((id_of_file(p), Some(p.to_owned())));
        }
    }
    if says(id) {
        if let Some(m) = id {
            return Some((m.to_owned(), None));
        }
    }
    None
}

/// The selection of a pinned model.
pub open spec fn is_pinned(s: Selection, model_id: Seq<char>, path: Option<Seq<char>>, now: u64) -> bool {
    &&& s.model_id@ == model_id
    &&& text_view(s.model_path) == path
    &&& s.source == SelectionSource::Operator
    &&& s.detected_at == now
    &&& s.profile_summary@ == "operator-pinned"@
    &&& s.quant@.len() == 0
    &&& s.params@.len() == 0
    &&& s.hf_repo@.len() == 0
    &&& s.budget_mb == 0
    &&& s.approx_size_mb == 0
}

/// The selection of a model that fits a machine.
pub open spec fn is_detected(s: Selection, p: SystemProfile, now: u64) -> bool {
    let t = tier(tier_for(budget_of(p)));
    &&& s.model_id@ == t.model_id@
    &&& s.model_path is None
    &&& s.quant@ == t.quant@
    &&& s.source == SelectionSource::Detected
    &&& s.detected_at == now
    &&& s.budget_mb == budget_of(p)
    &&& s.profile_summary@ == p.line()
    &&& s.params@ == t.params@
    &&& s.hf_repo@ == t.hf_repo@
    &&& s.approx_size_mb == t.approx_size_mb
}

/// What is selected without looking at the machine: what the operator pinned, else,
/// unless a new look is forced, what was stored. `None` asks for a look.
pub fn ensure_selected(
    force: bool,
    pin: Option<(String, Option<String>)>,
    stored: Option<Selection>,
    now: u64,
) -> (r: Option<Selection>)
    ensures
        match pin {
            Some((m, f)) => r matches Some(s) && is_pinned(s, m@, text_view(f), now),
            None => r == (if force {
                None
            } else {
                stored
            }),
        },
{
    if let Some((model_id, model_path)) = pin {
        return Some(
            Selection {
                model_id,
                model_path,
                quant: String::new(),
                source: SelectionSource::Operator,
                detected_at: now,
                budget_mb: 0,
                profile_summary: "operator-pinned".to_owned(),
                params: String::new(),
                hf_repo: String::new(),
                approx_size_mb: 0,
            },
        );
    }
    if force {
        None
    } else {
        stored
    }
}

/// What is selected after a look at the machine.
pub fn detected_selection(p: &SystemProfile, now: u64) -> (r: Selection)
    ensures
        is_detected(r, *p, now),
{
    let rec = recommend(p);
    Selection {
        model_id: rec.model_id,
        model_path: None,
        quant: rec.quant,
        source: SelectionSource::Detected,
        detected_at: now,
        budget_mb: rec.budget_mb,
        profile_summary: p.summary(),
        params: rec.params,
        hf_repo: rec.hf_repo,
        approx_size_mb: rec.approx_size_mb,
    }
}

impl Selection {
    pub open spec fn short(self) -> Seq<char> {
        "↳ local model: "@ + chars::on_one_line(self.model_id@) + (match self.source {
            SelectionSource::Operator => " (operator-pinned)"@,
            SelectionSource::Detected => if self.quant@.len() == 0 {
                seq![]
            } else {
                " ("@ + chars::on_one_line(self.quant@) + (if self.approx_size_mb > 0 {
                    ", ~"@ + weights_text(self.approx_size_mb as nat)
                } else {
                    seq![]
                }) + ")"@
            },
        })
    }

    pub open spec fn long(self) -> Seq<char> {
        match self.source {
            SelectionSource::Operator =>
                "local model is operator-pinned (auto-detection skipped)\n  model:   "@
                + self.model_id@ + "\n"@ + (match self.model_path {
                Some(p) => "  path:    "@ + p@ + "\n"@,
                None => seq![],
            }) + "  source:  operator (AISH_LOCAL_MODEL_* / --model)"@,
            SelectionSource::Detected =>
                "detected hardware and selected a local model:\n  system:  "@
                + self.profile_summary@ + "\n  budget:  "@ + gb_text(self.budget_mb as nat)
                + "\n  model:   "@ + self.model_id@ + " ("@ + self.params@ + ", "@ + self.quant@
                + ", ~"@ + gb_text(self.approx_size_mb as nat) + ")\n"@ + (if self.hf_repo@.len()
                > 0 {
                "  gguf:    "@ + self.hf_repo@ + "\n"@
            } else {
                seq![]
            }) + "  source:  hardware auto-detection"@,
        }
    }
}

proof fn lemma_short_line(sel: Selection)
    ensures
        !sel.short().contains('\n'),
{
    reveal_strlit("↳ local model: ");
    reveal_strlit(" (operator-pinned)");
    reveal_strlit(" (");
    reveal_strlit(", ~");
    reveal_strlit(")");
    lemma_weights_line(sel.approx_size_mb as nat);
    assert(!chars::on_one_line(sel.model_id@).contains('\n'));
    assert(!chars::on_one_line(sel.quant@).contains('\n'));
}

/// The selection on one line.
pub fn short_line(sel: &Selection) -> (r: String)
    ensures
        r@ == sel.short(),
        !r@.contains('\n'),
{
    proof {
        lemma_short_line(*sel);
    }
    let mut out = "↳ local model: ".to_owned();
    out.push_str(text::on_one_line(sel.model_id.as_str()).as_str());
    match sel.source {
        SelectionSource::Operator => {
            out.push_str(" (operator-pinned)");
        },
        SelectionSource::Detected => {
            let q = text::chars_of(sel.quant.as_str());
            if q.len() > 0 {
                let mut tail = " (".to_owned();
                tail.push_str(text::on_one_line(sel.quant.as_str()).as_str());
                if sel.approx_size_mb > 0 {
                    let mut size = ", ~".to_owned();
                    size.push_str(fmt_weights(sel.approx_size_mb).as_str());
                    tail.push_str(size.as_str());
                } else {
                    assert(tail@ + seq![] =~= tail@);
                }
                tail.push_str(")");
                out.push_str(tail.as_str());
            } else {
                assert(out@ + seq![] =~= out@);
            }
        },
    }
    out
}

/// The selection in full.
pub fn report(sel: &Selection) -> (r: String)
    ensures
        r@ == sel.long(),
{
    match sel.source {
        SelectionSource::Operator => {
            let mut out =
                "local model is operator-pinned (auto-detection skipped)\n  model:   ".to_owned();
            out.push_str(sel.model_id.as_str());
            out.push_str("\n");
            match &sel.model_path {
                Some(p) => {
                    let mut l = "  path:    ".to_owned();
                    l.push_str(p.as_str());
                    l.push_str("\n");
                    out.push_str(l.as_str());
                },
                None => {
                    assert(out@ + seq![] =~= out@);
                },
            }
            out.push_str("  source:  operator (AISH_LOCAL_MODEL_* / --model)");
            out
        },
        SelectionSource::Detected => {
            let mut out = "detected hardware and selected a local model:\n  system:  ".to_owned();
            out.push_str(sel.profile_summary.as_str());
            out.push_str("\n  budget:  ");
            out.push_str(fmt_gb(sel.budget_mb).as_str());
            out.push_str("\n  model:   ");
            out.push_str(sel.model_id.as_str());
            out.push_str(" (");
            out.push_str(sel.params.as_str());
            out.push_str(", ");
            out.push_str(sel.quant.as_str());
            out.push_str(", ~");
            out.push_str(fmt_gb(sel.approx_size_mb).as_str());
            out.push_str(")\n");
            let repo = text::chars_of(sel.hf_repo.as_str());
            if repo.len() > 0 {
                let mut l = "  gguf:    ".to_owned();
                l.push_str(sel.hf_repo.as_str());
                l.push_str("\n");
                out.push_str(l.as_str());
            } else {
                assert(out@ + seq![] =~= out@);
            }
            out.push_str("  source:  hardware auto-detection");
            out
        },
    }
}

/// Law: the model that is picked is affordable, every larger one is not, and each fits
/// into the budget from which it is picked. A larger model is larger on disk too.
pub proof fn the_largest_affordable_model_is_picked(budget: int, i: int, j: int)
    requires
        0 <= budget,
    ensures
        tier(tier_for(budget)).min_budget_mb <= budget,
        0 <= i < tier_for(budget) ==> tier(i).min_budget_mb > budget,
        0 <= i < TIERS - 1 ==> tier(i).approx_size_mb < tier(i).min_budget_mb,
        0 <= i < j < TIERS ==> tier(i).approx_size_mb > tier(j).approx_size_mb,
{
}

proof fn lemma_model_names()
    ensures
        forall|i: int, j: int|
            0 <= i < TIERS && 0 <= j < TIERS && i != j ==> (#[trigger] tier(i)).model_id@ != (
            #[trigger] tier(j)).model_id@,
{
    reveal_strlit("llama-3.3-70b-instruct");
    reveal_strlit("qwen2.5-32b-instruct");
    reveal_strlit("gemma-2-27b-it");
    reveal_strlit("qwen2.5-14b-instruct");
    reveal_strlit("llama-3.1-8b-instruct");
    reveal_strlit("llama-3.2-3b-instruct");
    reveal_strlit("qwen2.5-1.5b-instruct");
    reveal_strlit("qwen2.5-0.5b-instruct");
    let names = seq![
        "llama-3.3-70b-instruct"@,
        "qwen2.5-32b-instruct"@,
        "gemma-2-27b-it"@,
        "qwen2.5-14b-instruct"@,
        "llama-3.1-8b-instruct"@,
        "llama-3.2-3b-instruct"@,
        "qwen2.5-1.5b-instruct"@,
        "qwen2.5-0.5b-instruct"@,
    ];
    assert forall|i: int| 0 <= i < TIERS implies (#[trigger] tier(i)).model_id@ == names[i] by {}
    assert forall|i: int, j: int| 0 <= i < j < 8 implies #[trigger] names[i] != #[trigger] names[j] by {
        assert(names[i].len() != names[j].len() || names[i][0] != names[j][0] || names[i][8]
            != names[j][8]);
    }
}

/// Law: every model of the table is found by its own name.
pub proof fn models_are_found_by_name(i: int)
    requires
        0 <= i < TIERS,
    ensures
        tier_named(tier(i).model_id@, 0) == Some(i),
{
    lemma_model_names();
    lemma_found_from(i, 0);
}

proof fn lemma_found_from(i: int, k: nat)
    requires
        k <= i < TIERS,
        forall|i: int, j: int|
            0 <= i < TIERS && 0 <= j < TIERS && i != j ==> (#[trigger] tier(i)).model_id@ != (
            #[trigger] tier(j)).model_id@,
    ensures
        tier_named(tier(i).model_id@, k) == Some(i),
    decreases TIERS - k,
{
    if k < i {
        assert(tier(k as int).model_id@ != tier(i).model_id@);
        lemma_found_from(i, k + 1);
    }
}

/// Law: a size is written to the nearest tenth of a gigabyte: whole gigabytes without a
/// fraction, and below one gigabyte every megabyte.
pub proof fn sizes_are_near(mb: nat, k: nat)
    ensures
        mb < 1024 ==> gb_text(mb) == chars::dec(mb) + " MB"@,
        k >= 1 ==> gb_text(1024 * k) == chars::dec(k) + " GB"@,
        k >= 1 ==> gb_text(1024 * k + 51) == chars::dec(k) + " GB"@,
        k >= 1 ==> gb_text(1024 * k + 512) == chars::dec(k) + "."@ + chars::dec(5) + " GB"@,
        k >= 1 ==> weights_text(1000 * k) == chars::dec(k) + " GB"@,
        k >= 1 ==> weights_text(1000 * k + 500) == chars::dec(k) + "."@ + chars::dec(5) + " GB"@,
        ({
            let t = half_even(10 * (mb as int), 1024);
            1024 * t - 512 <= 10 * mb <= 1024 * t + 512
        }),
{
    assert((1024 * k) % 1024 == 0 && (1024 * k + 512) / 1024 == k);
    assert((1024 * k + 51) % 1024 == 51 && (1024 * k + 51 + 512) / 1024 == k);
    assert((1024 * k + 512) % 1024 == 512);
    assert(half_even((10 * (1024 * k + 512)) as int, 1024) == 10 * k + 5);
    assert((10 * k + 5) / 10 == k && (10 * k + 5) % 10 == 5);
    assert((1000 * k) % 1000 == 0 && (1000 * k + 500) / 1000 == k);
    assert((1000 * k + 500) % 1000 == 500);
    assert(half_even((1000 * k + 500) as int, 100) == 10 * k + 5);
}

proof fn lemma_digit_word(n: nat, rest: Seq<char>)
    requires
        rest.len() > 0 ==> chars::is_ws(rest[0]),
    ensures
        chars::words(chars::dec(n) + rest) == seq![chars::dec(n)] + chars::words(rest),
        chars::trim(chars::dec(n)) == chars::dec(n),
{
    chars::lemma_dec_digits(n);
    let d = chars::dec(n);
    assert forall|i: int| 0 <= i < d.len() implies !chars::is_ws(#[trigger] d[i]) by {
        assert(chars::is_digit(d[i]));
    }
    chars::lemma_words_cons(d, rest);
    assert(chars::is_digit(d[0]) && chars::is_digit(d.last()));
    assert(chars::trim_start(d) == d);
    assert(chars::trim_end(d) == d);
}

/// Law: the memory of a machine is the number behind `MemTotal:`, in whatever line that
/// comes first, in megabytes; else what `sysctl` gives in bytes; else eight gigabytes.
pub proof fn memory_is_read_from_the_probes(
    before: Seq<Seq<char>>,
    rest: Seq<Seq<char>>,
    kb: nat,
    unit: Seq<char>,
    bytes: nat,
)
    requires
        kb <= u64::MAX,
        bytes <= u64::MAX,
        unit.len() > 0 ==> chars::is_ws(unit[0]),
        forall|i: int|
            0 <= i < before.len() ==> !chars::starts_with(#[trigger] before[i], "MemTotal:"@),
    ensures
        mem_total(before + seq!["MemTotal:"@ + seq![' '] + chars::dec(kb) + unit] + rest) == Some(kb),
        ram_mb(None, Some(chars::dec(bytes))) == bytes / 1_048_576,
        ram_mb(None, None) == 8192,
    decreases before.len(),
{
    reveal_strlit("MemTotal:");
    let l = "MemTotal:"@ + seq![' '] + chars::dec(kb) + unit;
    let all = before + seq![l] + rest;
    lemma_digit_word(kb, unit);
    lemma_digit_word(bytes, seq![]);
    chars::lemma_parse_dec(kb, u64::MAX as nat);
    chars::lemma_parse_dec(bytes, u64::MAX as nat);
    if before.len() == 0 {
        assert(all[0] == l);
        assert(l.subrange(0, 9) =~= "MemTotal:"@);
        assert(l.skip(9) =~= seq![' '] + (chars::dec(kb) + unit));
        chars::lemma_words_space(' ', chars::dec(kb) + unit);
    } else {
        let b = before.skip(1);
        assert(all[0] == before[0]);
        assert(all.skip(1) =~= b + seq![l] + rest);
        assert forall|i: int| 0 <= i < b.len() implies !chars::starts_with(
            #[trigger] b[i],
            "MemTotal:"@,
        ) by {
            assert(b[i] == before[i + 1]);
        }
        memory_is_read_from_the_probes(b, rest, kb, unit, bytes);
    }
}

/// Law: what `/proc/meminfo` says counts before what `sysctl` says.
pub proof fn meminfo_comes_first(meminfo: Seq<char>, memsize: Option<Seq<char>>, kb: nat)
    requires
        mem_total(chars::lines(meminfo)) == Some(kb),
    ensures
        ram_mb(Some(meminfo), memsize) == kb / 1024,
{
}

/// Law: a row of `nvidia-smi` gives the memory before its comma and the name behind it.
pub proof fn cards_are_read_from_their_row(mb: nat, name: Seq<char>)
    requires
        mb <= u64::MAX,
        forall|i: int| 0 <= i < name.len() ==> (#[trigger] name[i]) != '\n',
    ensures
        nvidia_row(chars::dec(mb) + seq![','] + name) == Some((mb, chars::trim(name))),
{
    let l = chars::dec(mb) + seq![','] + name;
    let d = chars::dec(mb);
    let n = d.len() as int;
    chars::lemma_dec_digits(mb);
    lemma_digit_word(mb, seq![]);
    chars::lemma_parse_dec(mb, u64::MAX as nat);
    assert(l[0] == d[0]);
    assert(chars::is_digit(d[0]));
    assert forall|j: int| 0 <= j < l.len() implies !chars::is_char('\n')(#[trigger] l[j]) by {
        if j < n {
            assert(l[j] == d[j]);
            assert(chars::is_digit(d[j]));
        } else if j > n {
            assert(l[j] == name[j - n - 1]);
        }
    }
    chars::lemma_find(l, chars::is_char('\n'), l.len() as int);
    assert(chars::lines(l) =~= seq![l]);
    assert(!chars::blank(l)) by {
        assert(!chars::is_ws(l[0]));
    }
    assert(first_filled(seq![l]) == Some(l));
    assert forall|j: int| 0 <= j < n implies !chars::is_char(',')(#[trigger] l[j]) by {
        assert(l[j] == d[j]);
        assert(chars::is_digit(d[j]));
    }
    assert(l[n] == ',');
    chars::lemma_find(l, chars::is_char(','), n);
    assert(l.take(n) =~= d);
    assert(l.skip(n + 1) =~= name);
}

/// Law: the first card with memory of its own counts, in megabytes; cards without any are
/// passed over.
pub proof fn the_first_card_with_memory_counts(
    empty: nat,
    bytes: nat,
    rest: Seq<Seq<char>>,
)
    requires
        0 < bytes <= u64::MAX,
    ensures
        amd_vram(Seq::new(empty, |i: int| chars::dec(0)) + seq![chars::dec(bytes)] + rest) == Some(
            bytes / 1_048_576,
        ),
        amd_vram(seq![]) is None,
    decreases empty,
{
    let zeros = Seq::new(empty, |i: int| chars::dec(0));
    let all = zeros + seq![chars::dec(bytes)] + rest;
    lemma_digit_word(bytes, seq![]);
    lemma_digit_word(0, seq![]);
    chars::lemma_parse_dec(bytes, u64::MAX as nat);
    chars::lemma_parse_dec(0, u64::MAX as nat);
    if empty == 0 {
        assert(all[0] == chars::dec(bytes));
    } else {
        let fewer = Seq::new((empty - 1) as nat, |i: int| chars::dec(0));
        assert(all[0] == chars::dec(0));
        assert(all.skip(1) =~= fewer + seq![chars::dec(bytes)] + rest);
        the_first_card_with_memory_counts((empty - 1) as nat, bytes, rest);
    }
}

/// Law: a path below a directory is the directory, one slash and the name.
pub proof fn paths_are_joined_by_one_slash(dir: Seq<char>, name: Seq<char>)
    requires
        dir.len() > 0,
        dir.last() != '/',
    ensures
        joined(dir, name) == dir + seq!['/'] + name,
        joined(dir + seq!['/'], name) == dir + seq!['/'] + name,
{
    reveal_strlit("/");
    assert(dir + "/"@ + name =~= dir + seq!['/'] + name);
    assert((dir + seq!['/']).last() == '/');
}

/// Law: a file's stem is its name up to the last dot; a name without a dot, or with one in
/// front only, is its own stem.
pub proof fn stems_end_at_the_last_dot(stem: Seq<char>, extension: Seq<char>)
    requires
        !extension.contains('.'),
    ensures
        stem.len() > 0 ==> stem_of(stem + seq!['.'] + extension) == stem,
        stem_of(seq!['.'] + extension) == seq!['.'] + extension,
        stem_of(extension) == extension,
{
    lemma_last_dot(stem, extension);
    lemma_last_dot(seq![], extension);
    assert(Seq::<char>::empty() + seq!['.'] + extension =~= seq!['.'] + extension);
}

proof fn lemma_last_dot(stem: Seq<char>, extension: Seq<char>)
    requires
        !extension.contains('.'),
    ensures
        before_last_dot(stem + seq!['.'] + extension) == Some(stem),
        before_last_dot(extension) is None,
    decreases extension.len(),
{
    let s = stem + seq!['.'] + extension;
    if extension.len() == 0 {
        assert(s.last() == '.');
        assert(s.drop_last() =~= stem);
    } else {
        let e = extension.drop_last();
        assert(extension.contains(extension.last()));
        assert forall|c: char| e.contains(c) implies extension.contains(c) by {
            let i = choose|i: int| 0 <= i < e.len() && e[i] == c;
            assert(extension[i] == c);
        }
        assert(s.last() == extension.last());
        assert(s.drop_last() =~= stem + seq!['.'] + e);
        lemma_last_dot(stem, e);
    }
}

/// Law: the line on a selection names the model, and says whether the operator chose it.
pub proof fn selections_name_their_model(sel: Selection)
    ensures
        chars::contains_str(sel.short(), chars::on_one_line(sel.model_id@)),
        chars::contains_str(sel.long(), sel.model_id@),
        sel.source == SelectionSource::Operator ==> chars::ends_with(
            sel.short(),
            " (operator-pinned)"@,
        ),
{
    let head = "↳ local model: "@;
    let id = chars::on_one_line(sel.model_id@);
    let s = sel.short();
    let tail = s.skip((head.len() + id.len()) as int);
    chars::lemma_holds_part(head, id, tail);
    assert(s =~= head + id + tail);
    let t = " (operator-pinned)"@;
    if sel.source == SelectionSource::Operator {
        assert(s.subrange(s.len() - t.len(), s.len() as int) =~= t);
    }
    let l = sel.long();
    let m = sel.model_id@;
    if sel.source == SelectionSource::Operator {
        let h = "local model is operator-pinned (auto-detection skipped)\n  model:   "@;
        let r = l.skip((h.len() + m.len()) as int);
        chars::lemma_holds_part(h, m, r);
        assert(l =~= h + m + r);
    } else {
        let h = "detected hardware and selected a local model:\n  system:  "@ + sel.profile_summary@
            + "\n  budget:  "@ + gb_text(sel.budget_mb as nat) + "\n  model:   "@;
        let r = l.skip((h.len() + m.len()) as int);
        chars::lemma_holds_part(h, m, r);
        assert(l =~= h + m + r);
    }
}

/// Law: a model file is known by its name without the extension, wherever it lies.
pub proof fn files_are_known_by_their_stem(dir: Seq<char>, stem: Seq<char>, extension: Seq<char>)
    requires
        stem.len() > 0,
        !stem.contains('/'),
        !extension.contains('/'),
        !extension.contains('.'),
        extension.len() > 0,
    ensures
        file_id(dir + seq!['/'] + (stem + seq!['.'] + extension)) == stem,
        file_id(stem + seq!['.'] + extension) == stem,
{
    let name = stem + seq!['.'] + extension;
    reveal_strlit(".");
    reveal_strlit("..");
    assert(name.len() > 2);
    assert(!name.contains('/')) by {
        if name.contains('/') {
            let i = choose|i: int| 0 <= i < name.len() && name[i] == '/';
            if i < stem.len() {
                assert(stem[i] == '/');
            } else if i > stem.len() {
                assert(extension[i - stem.len() - 1] == '/');
            }
        }
    }
    git::paths_end_in_their_name(dir, name);
    stems_end_at_the_last_dot(stem, extension);
}

/// Law: the reason names the memory that counts: the unified memory of an Apple machine, the
/// memory of a discrete card where it is known, and else the system's.
pub proof fn reasons_name_the_memory(p: SystemProfile, v: u64)
    ensures
        p.gpu_kind == GpuKind::Apple ==> chars::starts_with(basis(p), gb_text(p.total_ram_mb as nat))
            && chars::ends_with(basis(p), " unified memory"@),
        (p.gpu_kind == GpuKind::Nvidia || p.gpu_kind == GpuKind::Amd) && p.vram_mb == Some(v)
            ==> chars::contains_str(basis(p), gb_text(v as nat)) && chars::starts_with(
            basis(p),
            p.gpu_kind.name(),
        ) && chars::ends_with(basis(p), " VRAM"@),
        p.gpu_kind == GpuKind::CpuOnly || p.gpu_kind == GpuKind::Intel || (p.gpu_kind
            != GpuKind::Apple && p.vram_mb is None) ==> chars::starts_with(
            basis(p),
            gb_text(p.total_ram_mb as nat),
        ) && chars::ends_with(basis(p), " system RAM (CPU)"@),
{
    let b = basis(p);
    let r = gb_text(p.total_ram_mb as nat);
    let g = gb_text(v as nat);
    let k = p.gpu_kind.name();
    if p.gpu_kind == GpuKind::Apple {
        assert(b.subrange(0, r.len() as int) =~= r);
        let t = " unified memory"@;
        assert(b.subrange(b.len() - t.len(), b.len() as int) =~= t);
    } else if (p.gpu_kind == GpuKind::Nvidia || p.gpu_kind == GpuKind::Amd) && p.vram_mb is Some {
        if p.vram_mb == Some(v) {
            let t = " VRAM"@;
            assert(b == k + " "@ + g + t);
            chars::lemma_holds_part(k + " "@, g, t);
            assert(b.subrange(0, k.len() as int) =~= k);
            assert(b.subrange(b.len() - t.len(), b.len() as int) =~= t);
        }
    } else {
        let t = " system RAM (CPU)"@;
        assert(b == r + t);
        assert(b.subrange(0, r.len() as int) =~= r);
        assert(b.subrange(b.len() - t.len(), b.len() as int) =~= t);
    }
}

} // verus!
