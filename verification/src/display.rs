//! What the map window shows besides geometry: the status line of an
//! indexing run, node and frame colours, pixel blending, and which drawn
//! nodes move together when a directory is dragged.

use vstd::prelude::*;
use crate::indexer::{IndexPhase, IndexProgress};
use crate::scene::{format_number, spec_format_number};
use crate::text::{chars_of, decimal_string, push_char, push_str, spec_decimal};

verus! {

/// The headline shown for a phase, and whether the run counts as indexing
/// and as paused.
pub open spec fn spec_phase_status(phase: IndexPhase) -> (Seq<char>, bool, bool) {
    match phase {
        IndexPhase::Starting => ("Starting index"@, true, false),
        IndexPhase::Scanning => ("Scanning project"@, true, false),
        IndexPhase::Paused => ("Index paused"@, true, true),
        IndexPhase::ReplayingChanges => ("Applying file changes"@, true, false),
        IndexPhase::Watching => ("Index current / watching"@, false, false),
        IndexPhase::Complete => ("Index complete"@, false, false),
        IndexPhase::CompleteWithWarnings => ("Index complete with warnings"@, false, false),
        IndexPhase::Cancelled => ("Index cancelled"@, false, false),
        IndexPhase::Failed => ("Index failed"@, false, false),
    }
}

/// The run is still at work: starting, scanning, paused or replaying
/// changes.
pub open spec fn phase_running(phase: IndexPhase) -> bool {
    phase == IndexPhase::Starting || phase == IndexPhase::Scanning || phase == IndexPhase::Paused
        || phase == IndexPhase::ReplayingChanges
}

/// The status area tells a run still at work from a finished one: a
/// running phase counts as indexing and a finished one does not, only the
/// paused phase counts as paused, and no running phase shares its headline
/// with a finished one; indeed no two phases share a headline. A scan under
/// way reads "Scanning project".
pub proof fn law_running_phases_show_as_indexing(phase: IndexPhase, other: IndexPhase)
    ensures
        spec_phase_status(phase).1 == phase_running(phase),
        spec_phase_status(phase).2 == (phase == IndexPhase::Paused),
        phase_running(phase) && !phase_running(other) ==> spec_phase_status(phase).0 != spec_phase_status(other).0,
        phase != other ==> spec_phase_status(phase).0 != spec_phase_status(other).0,
        phase == IndexPhase::Scanning ==> spec_phase_status(phase) == ("Scanning project"@, true, false),
{
    reveal_strlit("Starting index");
    reveal_strlit("Scanning project");
    reveal_strlit("Index paused");
    reveal_strlit("Applying file changes");
    reveal_strlit("Index current / watching");
    reveal_strlit("Index complete");
    reveal_strlit("Index complete with warnings");
    reveal_strlit("Index cancelled");
    reveal_strlit("Index failed");
    if phase != other {
        let a = spec_phase_status(phase).0;
        let b = spec_phase_status(other).0;
        if a.len() == b.len() {
            assert(a[0] != b[0] || a[6] != b[6]);
        }
    }
}

/// `n` in decimal with a leading minus where it is negative.
pub open spec fn spec_signed_decimal(n: int) -> Seq<char> {
    if n < 0 { seq!['-'] + spec_decimal((-n) as nat) } else { spec_decimal(n as nat) }
}

/// `n` in decimal with a leading minus where it is negative.
pub fn signed_decimal(n: i64) -> (s: String)
    ensures
        s@ == spec_signed_decimal(n as int),
{
    if n < 0 {
        let magnitude: u128 = (0 - (n as i128)) as u128;
        let mut s = String::new();
        push_char(&mut s, '-');
        push_str(&mut s, decimal_string(magnitude).as_str());
        s
    } else {
        decimal_string(n as u128)
    }
}

/// What the status area shows for a progress report.
#[derive(Debug)]
pub struct ProgressStatus {
    pub title: &'static str,
    pub detail: String,
    pub node_metric: String,
    pub generation_metric: String,
    pub indexing: bool,
    pub paused: bool,
}

/// The detail line of a progress report: nodes, pending folders and
/// warnings with thousands separators, and a note when the run resumed.
pub open spec fn spec_progress_detail(p: IndexProgress) -> Seq<char> {
    spec_format_number(p.indexed_nodes as nat) + " nodes / "@ + spec_format_number(p.pending_directories as nat)
        + " folders pending / "@ + spec_format_number(p.issue_count as nat) + " warnings"@
        + (if p.resumed { " / resumed"@ } else { Seq::<char>::empty() })
}

/// What the status area shows for `progress`: the phase's headline and
/// flags, the detail line, the node count, and `GEN` with the generation.
pub fn progress_status(progress: &IndexProgress) -> (s: ProgressStatus)
    ensures
        s.title@ == spec_phase_status(progress.phase).0,
        s.indexing == spec_phase_status(progress.phase).1,
        s.paused == spec_phase_status(progress.phase).2,
        s.indexing == phase_running(progress.phase),
        s.paused == (progress.phase == IndexPhase::Paused),
        progress.phase == IndexPhase::Scanning ==> s.title@ == "Scanning project"@,
        s.detail@ == spec_progress_detail(*progress),
        s.node_metric@ == spec_format_number(progress.indexed_nodes as nat),
        s.generation_metric@ == "GEN "@ + spec_signed_decimal(progress.generation as int),
{
    proof {
        law_running_phases_show_as_indexing(progress.phase, progress.phase);
    }
    let (title, indexing, paused): (&'static str, bool, bool) = match progress.phase {
        IndexPhase::Starting => ("Starting index", true, false),
        IndexPhase::Scanning => ("Scanning project", true, false),
        IndexPhase::Paused => ("Index paused", true, true),
        IndexPhase::ReplayingChanges => ("Applying file changes", true, false),
        IndexPhase::Watching => ("Index current / watching", false, false),
        IndexPhase::Complete => ("Index complete", false, false),
        IndexPhase::CompleteWithWarnings => ("Index complete with warnings", false, false),
        IndexPhase::Cancelled => ("Index cancelled", false, false),
        IndexPhase::Failed => ("Index failed", false, false),
    };
    let mut detail = format_number(progress.indexed_nodes);
    push_str(&mut detail, " nodes / ");
    push_str(&mut detail, format_number(progress.pending_directories).as_str());
    push_str(&mut detail, " folders pending / ");
    push_str(&mut detail, format_number(progress.issue_count).as_str());
    push_str(&mut detail, " warnings");
    if progress.resumed {
        push_str(&mut detail, " / resumed");
    }
    let mut generation_metric = String::from_str("GEN ");
    push_str(&mut generation_metric, signed_decimal(progress.generation).as_str());
    proof {
        assert(detail@ =~= spec_progress_detail(*progress));
    }
    ProgressStatus {
        title,
        detail,
        node_metric: format_number(progress.indexed_nodes),
        generation_metric,
        indexing,
        paused,
    }
}

/// An RGBA pixel or colour, eight bits per channel.
#[derive(Debug, Clone, Copy, PartialEq, Eq, Structural)]
pub struct Rgba8 {
    pub r: u8,
    pub g: u8,
    pub b: u8,
    pub a: u8,
}

/// One channel of `fg` laid over `bg` with opacity `alpha` out of 255,
/// rounded down.
pub open spec fn mix(fg: u8, bg: u8, alpha: u8) -> int {
    (fg * alpha + bg * (255 - alpha)) / 255
}

/// `fg` laid over `bg`: an opaque colour replaces the pixel; otherwise
/// each channel is mixed by the colour's opacity and the result is opaque.
pub open spec fn spec_blend(bg: Rgba8, fg: Rgba8) -> Rgba8 {
    if fg.a == 255 {
        fg
    } else {
        Rgba8 {
            r: mix(fg.r, bg.r, fg.a) as u8,
            g: mix(fg.g, bg.g, fg.a) as u8,
            b: mix(fg.b, bg.b, fg.a) as u8,
            a: 255,
        }
    }
}

fn mix_channel(fg: u8, bg: u8, alpha: u8) -> (c: u8)
    ensures
        c == mix(fg, bg, alpha),
{
    let inverse: u16 = 255 - alpha as u16;
    proof {
        assert(fg * alpha <= 255 * 255) by (nonlinear_arith)
            requires
                fg <= 255,
                alpha <= 255,
        ;
        assert(bg * inverse <= 255 * inverse) by (nonlinear_arith)
            requires
                bg <= 255,
        ;
        assert(fg * alpha + bg * inverse <= 255 * 255) by (nonlinear_arith)
            requires
                fg <= 255,
                bg <= 255,
                inverse == 255 - alpha,
                alpha <= 255,
        ;
    }
    let total: u16 = (fg as u16) * (alpha as u16) + (bg as u16) * inverse;
    (total / 255) as u8
}

/// `fg` laid over `bg`; see `spec_blend`.
pub fn blend(bg: Rgba8, fg: Rgba8) -> (p: Rgba8)
    ensures
        p == spec_blend(bg, fg),
{
    if fg.a == 255 {
        return fg;
    }
    Rgba8 {
        r: mix_channel(fg.r, bg.r, fg.a),
        g: mix_channel(fg.g, bg.g, fg.a),
        b: mix_channel(fg.b, bg.b, fg.a),
        a: 255,
    }
}

/// The accent colours of the map, used in turn.
pub open spec fn spec_palette(i: nat) -> (u8, u8, u8) {
    let k = i % 5;
    if k == 0 {
        (0x48, 0xe1, 0x91)
    } else if k == 1 {
        (0x53, 0xc8, 0xb9)
    } else if k == 2 {
        (0x63, 0x9f, 0xdf)
    } else if k == 3 {
        (0xb4, 0x86, 0xdc)
    } else {
        (0xe0, 0xb0, 0x5a)
    }
}

/// Accent colour `i`, counting round the palette.
pub fn palette(i: usize) -> (c: (u8, u8, u8))
    ensures
        c == spec_palette(i as nat),
{
    let k = i % 5;
    if k == 0 {
        (0x48, 0xe1, 0x91)
    } else if k == 1 {
        (0x53, 0xc8, 0xb9)
    } else if k == 2 {
        (0x63, 0x9f, 0xdf)
    } else if k == 3 {
        (0xb4, 0x86, 0xdc)
    } else {
        (0xe0, 0xb0, 0x5a)
    }
}

/// The fill of a node drawn in `accent`: a dark shade of it, more opaque
/// for a directory.
pub open spec fn spec_node_fill(accent: (u8, u8, u8), is_directory: bool) -> Rgba8 {
    Rgba8 {
        r: (accent.0 / 7 + 10) as u8,
        g: (accent.1 / 6 + 22) as u8,
        b: (accent.2 / 6 + 16) as u8,
        a: if is_directory { 220 } else { 178 },
    }
}

/// The fill of a node drawn in `accent`; see `spec_node_fill`.
pub fn node_fill(accent: (u8, u8, u8), is_directory: bool) -> (c: Rgba8)
    ensures
        c == spec_node_fill(accent, is_directory),
{
    Rgba8 {
        r: accent.0 / 7 + 10,
        g: accent.1 / 6 + 22,
        b: accent.2 / 6 + 16,
        a: if is_directory { 220 } else { 178 },
    }
}

/// The border of a node drawn in `accent`: the accent itself, nearly
/// opaque.
pub fn node_border(accent: (u8, u8, u8)) -> (c: Rgba8)
    ensures
        c == (Rgba8 { r: accent.0, g: accent.1, b: accent.2, a: 230 }),
{
    Rgba8 { r: accent.0, g: accent.1, b: accent.2, a: 230 }
}

/// The outer fill of a frame in `accent`: a third of it, see-through, and
/// left out entirely in a dense overview.
pub fn frame_fill(accent: (u8, u8, u8), dense_overview: bool) -> (c: Rgba8)
    ensures
        c == (Rgba8 {
            r: (accent.0 / 3 + 5) as u8,
            g: (accent.1 / 3 + 8) as u8,
            b: (accent.2 / 3 + 7) as u8,
            a: if dense_overview { 0 } else { 105 },
        }),
{
    Rgba8 {
        r: accent.0 / 3 + 5,
        g: accent.1 / 3 + 8,
        b: accent.2 / 3 + 7,
        a: if dense_overview { 0 } else { 105 },
    }
}

/// `path` is `root` or lies below it (below the root written without its
/// trailing slashes).
pub open spec fn spec_in_subtree(root: Seq<char>, path: Seq<char>) -> bool {
    let base = crate::scene::trim_trailing_slashes(root) + seq!['/'];
    path == root || (base.len() <= path.len() && path.subrange(0, base.len() as int) == base)
}

/// Whether a drawn node at `path` moves with a dragged node at `root`.
pub fn in_subtree(root: &str, path: &str) -> (r: bool)
    ensures
        r == spec_in_subtree(root@, path@),
{
    let root_chars = chars_of(root);
    let path_chars = chars_of(path);
    if crate::text::chars_equal(&root_chars, &path_chars) {
        return true;
    }
    let mut n: usize = root_chars.len();
    proof {
        assert(root_chars@.subrange(0, n as int) =~= root_chars@);
    }
    while n > 0 && root_chars[n - 1] == '/'
        invariant
            n <= root_chars@.len(),
            crate::scene::trim_trailing_slashes(root_chars@)
                == crate::scene::trim_trailing_slashes(root_chars@.subrange(0, n as int)),
        decreases n,
    {
        proof {
            assert(root_chars@.subrange(0, n as int).drop_last() =~= root_chars@.subrange(0, n - 1));
        }
        n = n - 1;
    }
    let mut base: Vec<char> = Vec::new();
    let mut i: usize = 0;
    while i < n
        invariant
            n <= root_chars@.len(),
            i <= n,
            base@ == root_chars@.subrange(0, i as int),
        decreases n - i,
    {
        base.push(root_chars[i]);
        proof {
            assert(root_chars@.subrange(0, (i + 1) as int) =~= root_chars@.subrange(0, i as int).push(root_chars@[i as int]));
        }
        i = i + 1;
    }
    proof {
        assert(crate::scene::trim_trailing_slashes(root_chars@.subrange(0, n as int)) == root_chars@.subrange(0, n as int)) by {
            assert(n == 0 || root_chars@[n - 1] != '/');
        }
    }
    let ghost trimmed = base@;
    base.push('/');
    proof {
        assert(trimmed == crate::scene::trim_trailing_slashes(root@));
        assert(base@ =~= crate::scene::trim_trailing_slashes(root@) + seq!['/']);
        assert(path@ != root@);
    }
    crate::text::starts_with_chars(&path_chars, &base)
}

/// Laying a fully transparent colour over a pixel keeps the pixel's
/// colour; laying an opaque one gives that colour.
pub proof fn law_blend_extremes(bg: Rgba8, fg: Rgba8)
    ensures
        fg.a == 0 ==> spec_blend(bg, fg).r == bg.r && spec_blend(bg, fg).g == bg.g && spec_blend(bg, fg).b == bg.b,
        fg.a == 255 ==> spec_blend(bg, fg) == fg,
{
}

} // verus!
