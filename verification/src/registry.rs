//! Ids of what the host holds handles to, and small numbers of its interface.

use vstd::prelude::*;

verus! {

/// The highest of the first `n` ids, 0 without any.
pub open spec fn highest(ids: Seq<u64>, n: int) -> u64
    decreases n,
{
    if n <= 0 || n > ids.len() {
        0
    } else {
        let h = highest(ids, n - 1);
        if ids[n - 1] > h {
            ids[n - 1]
        } else {
            h
        }
    }
}

proof fn lemma_highest(ids: Seq<u64>, n: int)
    requires
        0 <= n <= ids.len(),
    ensures
        forall|i: int| 0 <= i < n ==> #[trigger] ids[i] <= highest(ids, n),
    decreases n,
{
    if n > 0 {
        lemma_highest(ids, n - 1);
    }
}

/// Next free id: one past the highest live id. There is no persistent counter, so ids
/// naturally restart from the live set each launch — and a restored terminal re-claims
/// its *own* id (see [`restore_id`]), so a stale serialized id is never silently handed
/// to a different, fresh terminal.
pub fn alloc_id(live: &Vec<u64>) -> (r: u64)
    requires
        !live@.contains(u64::MAX),
    ensures
        r == highest(live@, live@.len() as int) + 1,
        r > 0,
        !live@.contains(r),
{
    let n: usize = live.len();
    let mut h: u64 = 0;
    let mut i: usize = 0;
    while i < n
        invariant
            i <= n == live@.len(),
            h == highest(live@, i as int),
            h < u64::MAX,
            !live@.contains(u64::MAX),
        decreases n - i,
    {
        if live[i] > h {
            assert(live@.contains(live@[i as int]));
            h = live[i];
        }
        i = i + 1;
    }
    proof {
        lemma_highest(live@, n as int);
    }
    h + 1
}

/// Id for a restored terminal: its original `hint` if still free, else a fresh one.
/// Keeping the original id means a re-adopting window finds its own terminal and never
/// collides with another window's.
pub fn restore_id(live: &Vec<u64>, hint: u64) -> (r: u64)
    requires
        !live@.contains(u64::MAX),
    ensures
        r == (if hint != 0 && !live@.contains(hint) {
            hint as int
        } else {
            highest(live@, live@.len() as int) + 1
        }),
        r > 0,
        !live@.contains(r),
{
    if hint == 0 {
        return alloc_id(live);
    }
    let n: usize = live.len();
    let mut i: usize = 0;
    while i < n
        invariant
            i <= n == live@.len(),
            hint != 0,
            forall|k: int| 0 <= k < i ==> #[trigger] live@[k] != hint,
            !live@.contains(u64::MAX),
        decreases n - i,
    {
        if live[i] == hint {
            assert(live@.contains(hint));
            return alloc_id(live);
        }
        i = i + 1;
    }
    hint
}

/// Unpack 0x00RRGGBB into [r, g, b].
pub fn rgb(packed: u32) -> (r: [u8; 3])
    ensures
        r@ == seq![
            (packed as int / 0x10000 % 0x100) as u8,
            (packed as int / 0x100 % 0x100) as u8,
            (packed as int % 0x100) as u8,
        ],
{
    [(packed / 0x10000 % 0x100) as u8, (packed / 0x100 % 0x100) as u8, (packed % 0x100) as u8]
}

/// The packed form of a color unpacks to the color.
pub proof fn law_rgb_unpacks(r: u8, g: u8, b: u8)
    ensures
        ({
            let packed = r as int * 0x10000 + g as int * 0x100 + b as int;
            packed / 0x10000 % 0x100 == r && packed / 0x100 % 0x100 == g && packed % 0x100 == b
        }),
{
}

/// A surface size: at least one pixel each way, and at most what the device takes.
pub fn clamp_size(width: u32, height: u32, max: u32) -> (r: (u32, u32))
    requires
        max >= 1,
    ensures
        r.0 == (if width < 1 {
            1
        } else if width > max {
            max
        } else {
            width
        }),
        r.1 == (if height < 1 {
            1
        } else if height > max {
            max
        } else {
            height
        }),
{
    (
        if width < 1 {
            1
        } else if width > max {
            max
        } else {
            width
        },
        if height < 1 {
            1
        } else if height > max {
            max
        } else {
            height
        },
    )
}

/// The first adapter, from `i` on, with a vendor and a device id.
pub open spec fn adapter_from(infos: Seq<(u32, u32)>, want: (u32, u32), i: int) -> Option<int>
    decreases infos.len() - i,
{
    if i < 0 || i >= infos.len() {
        None
    } else if infos[i] == want {
        Some(i)
    } else {
        adapter_from(infos, want, i + 1)
    }
}

/// The adapter to draw on: the one that the host draws on, by its vendor and device id,
/// for a texture can be shared only on the same physical adapter. None when the host's
/// is unknown or not among them.
pub fn match_adapter(infos: &Vec<(u32, u32)>, want: Option<(u32, u32)>) -> (r: Option<usize>)
    ensures
        match (r, want) {
            (Some(k), Some(w)) => adapter_from(infos@, w, 0) == Some(k as int),
            (None, Some(w)) => adapter_from(infos@, w, 0) is None,
            (None, None) => true,
            (Some(k), None) => false,
        },
{
    let (vendor, device) = match want {
        Some(w) => w,
        None => return None,
    };
    let n: usize = infos.len();
    let mut i: usize = 0;
    while i < n
        invariant
            i <= n == infos@.len(),
            want == Some((vendor, device)),
            adapter_from(infos@, (vendor, device), 0) == adapter_from(infos@, (vendor, device), i as int),
        decreases n - i,
    {
        if infos[i].0 == vendor && infos[i].1 == device {
            assert(infos@[i as int] == (vendor, device));
            return Some(i);
        }
        i = i + 1;
    }
    None
}

/// The highest id is at least as high as every other, and is one of them.
pub proof fn law_highest_is_the_highest(ids: Seq<u64>, n: int)
    requires
        0 <= n <= ids.len(),
    ensures
        forall|i: int| 0 <= i < n ==> #[trigger] ids[i] <= highest(ids, n),
        n == 0 ==> highest(ids, n) == 0,
        n > 0 ==> exists|i: int| 0 <= i < n && #[trigger] ids[i] == highest(ids, n),
    decreases n,
{
    if n > 0 {
        law_highest_is_the_highest(ids, n - 1);
        if ids[n - 1] > highest(ids, n - 1) {
        } else if n > 1 {
            let i = choose|i: int| 0 <= i < n - 1 && #[trigger] ids[i] == highest(ids, n - 1);
            assert(ids[i] == highest(ids, n));
        } else {
            assert(ids[0] == highest(ids, n));
        }
    }
}

/// An adapter that is found has the ids that were asked for, and none before it has; one is
/// found wherever there is one.
pub proof fn law_adapter_is_the_first_that_fits(infos: Seq<(u32, u32)>, want: (u32, u32), i: int)
    requires
        0 <= i <= infos.len(),
    ensures
        match adapter_from(infos, want, i) {
            Some(k) => {
                &&& i <= k < infos.len()
                &&& infos[k].0 == want.0 && infos[k].1 == want.1
                &&& forall|j: int| i <= j < k ==> #[trigger] infos[j] != want
            },
            None => forall|j: int| i <= j < infos.len() ==> #[trigger] infos[j] != want,
        },
    decreases infos.len() - i,
{
    if i < infos.len() && infos[i] != want {
        law_adapter_is_the_first_that_fits(infos, want, i + 1);
    }
}

} // verus!
