//! The decision kernel of the adaptive image compressor: which encodings
//! to try, in which order, under which size cap.  The encoders themselves
//! live with the caller; it runs the schedule, encodes each attempt, and
//! keeps the first result that fits.

use vstd::prelude::*;

verus! {

/// One encoding attempt: lossless PNG, or JPEG at a quality level.
#[derive(Debug, Copy, Clone, Eq, PartialEq, Structural)]
pub enum Encoding {
    Png,
    Jpeg(u8),
}

/// The attempt schedule: PNG first when allowed, then JPEG at the
/// qualities 100, 95, ..., 55.
pub open spec fn plan_seq(allow_png: bool) -> Seq<Encoding> {
    let jpeg = Seq::new(10, |i: int| Encoding::Jpeg((100 - 5 * i) as u8));
    if allow_png {
        seq![Encoding::Png] + jpeg
    } else {
        jpeg
    }
}

/// A cursor over the attempt schedule.
pub struct CompressPlan {
    allow_png: bool,
    step: usize,
}

impl CompressPlan {
    /// Whether the schedule opens with a PNG attempt.
    pub closed spec fn allows_png(&self) -> bool {
        self.allow_png
    }

    /// How many attempts were already handed out.
    pub closed spec fn step_spec(&self) -> int {
        self.step as int
    }

    /// The cursor sits within the schedule.
    pub closed spec fn wf(&self) -> bool {
        self.step <= plan_seq(self.allow_png).len()
    }

    /// Start the schedule.
    pub fn new(allow_png: bool) -> (r: CompressPlan)
        ensures
            r.wf(),
            r.allows_png() == allow_png,
            r.step_spec() == 0,
    {
        CompressPlan { allow_png, step: 0 }
    }

    /// The next encoding to try, `None` once the schedule is exhausted.
    pub fn next_attempt(&mut self) -> (r: Option<Encoding>)
        requires
            old(self).wf(),
        ensures
            final(self).wf(),
            final(self).allows_png() == old(self).allows_png(),
            old(self).step_spec() < plan_seq(old(self).allows_png()).len() ==> {
                &&& r == Some(plan_seq(old(self).allows_png())[old(self).step_spec()])
                &&& final(self).step_spec() == old(self).step_spec() + 1
            },
            old(self).step_spec() >= plan_seq(old(self).allows_png()).len() ==> {
                &&& r is None
                &&& final(self).step_spec() == old(self).step_spec()
            },
    {
        let total: usize = if self.allow_png {
            11
        } else {
            10
        };
        if self.step < total {
            let k = if self.allow_png {
                self.step
            } else {
                self.step + 1
            };
            let attempt = if k == 0 {
                Encoding::Png
            } else {
                Encoding::Jpeg(100 - 5 * ((k - 1) as u8))
            };
            proof {
                if self.allow_png {
                    if self.step > 0 {
                        assert(plan_seq(true)[self.step as int] == Encoding::Jpeg(
                            (100 - 5 * (self.step as int - 1)) as u8,
                        ));
                    }
                } else {
                    assert(plan_seq(false)[self.step as int] == Encoding::Jpeg(
                        (100 - 5 * (self.step as int)) as u8,
                    ));
                }
            }
            self.step += 1;
            Some(attempt)
        } else {
            None
        }
    }
}

/// The size cap the compressor honours: the requested cap, tightened to
/// the original encoding's size when that is known and smaller.
pub fn effective_cap(max_size: usize, org_size: Option<usize>) -> (r: usize)
    ensures
        r == match org_size {
            Some(o) => if max_size > o {
                o
            } else {
                max_size
            },
            None => max_size,
        },
{
    match org_size {
        Some(o) => if max_size > o {
            o
        } else {
            max_size
        },
        None => max_size,
    }
}

/// Whether an image of the given dimensions already fits the allowed
/// pixel area, so that no resize is needed.
pub fn fits_area(width: u32, height: u32, max_area: u32) -> (r: bool)
    ensures
        r == (width * height <= max_area),
{
    proof {
        assert(width * height <= 0xffff_ffffu64 * 0xffff_ffffu64) by (nonlinear_arith)
            requires
                width <= 0xffff_ffffu32,
                height <= 0xffff_ffffu32,
        ;
    }
    (width as u64) * (height as u64) <= (max_area as u64)
}

} // verus!
