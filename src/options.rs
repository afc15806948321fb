use vstd::prelude::*;

verus! {

/// One of the display options that the transformation recognises.
#[derive(PartialEq, Eq, Structural, Clone, Copy, Debug, Hash)]
pub enum Options {
    ShowTabs,
    ShowEnds,
    SqueezeBlank,
    Number,
    NumberNonblank,
    ShowNonprinting,
}

/// The set of options in effect, one flag per option.
#[derive(PartialEq, Eq, Structural, Clone, Copy, Debug)]
pub struct Flags {
    pub show_tabs: bool,
    pub show_ends: bool,
    pub squeeze_blank: bool,
    pub number: bool,
    pub number_nonblank: bool,
    pub show_nonprinting: bool,
}

/// The flags that a list of options sets: an option's flag is on exactly
/// when the option occurs in the list, however often and wherever.
pub open spec fn flags_spec(options: Seq<Options>) -> Flags {
    Flags {
        show_tabs: options.contains(Options::ShowTabs),
        show_ends: options.contains(Options::ShowEnds),
        squeeze_blank: options.contains(Options::SqueezeBlank),
        number: options.contains(Options::Number),
        number_nonblank: options.contains(Options::NumberNonblank),
        show_nonprinting: options.contains(Options::ShowNonprinting),
    }
}

impl Flags {
    /// No option set.
    pub fn none() -> (r: Flags)
        ensures
            r == flags_spec(Seq::empty()),
    {
        Flags {
            show_tabs: false,
            show_ends: false,
            squeeze_blank: false,
            number: false,
            number_nonblank: false,
            show_nonprinting: false,
        }
    }

    /// The flag that stands for `opt`.
    pub open spec fn has(self, opt: Options) -> bool {
        match opt {
            Options::ShowTabs => self.show_tabs,
            Options::ShowEnds => self.show_ends,
            Options::SqueezeBlank => self.squeeze_blank,
            Options::Number => self.number,
            Options::NumberNonblank => self.number_nonblank,
            Options::ShowNonprinting => self.show_nonprinting,
        }
    }
}

/// Collapses a list of options into their flags.
pub fn flags_of(options: &[Options]) -> (r: Flags)
    ensures
        r == flags_spec(options@),
{
    let mut r = Flags::none();
    let mut i: usize = 0;
    while i < options.len()
        invariant
            i <= options.len(),
            forall|o: Options| #[trigger] r.has(o) == options@.take(i as int).contains(o),
        decreases options.len() - i,
    {
        let o = options[i];
        let ghost r0 = r;
        match o {
            Options::ShowTabs => { r.show_tabs = true; },
            Options::ShowEnds => { r.show_ends = true; },
            Options::SqueezeBlank => { r.squeeze_blank = true; },
            Options::Number => { r.number = true; },
            Options::NumberNonblank => { r.number_nonblank = true; },
            Options::ShowNonprinting => { r.show_nonprinting = true; },
        }
        proof {
            let t = options@.take(i as int + 1);
            assert(t == options@.take(i as int).push(o));
            assert forall|p: Options| #[trigger] r.has(p) == t.contains(p) by {
                assert(r.has(p) == (p == o || r0.has(p)));
                assert(r0.has(p) == options@.take(i as int).contains(p));
                if options@.take(i as int).contains(p) {
                    let k = choose|k: int| 0 <= k < i && options@.take(i as int)[k] == p;
                    assert(t[k] == p);
                }
                if t.contains(p) && p != o {
                    let k = choose|k: int| 0 <= k < t.len() && t[k] == p;
                    assert(options@.take(i as int)[k] == p);
                }
                if p == o {
                    assert(t[i as int] == o);
                }
            }
        }
        i = i + 1;
    }
    proof {
        assert(options@.take(options@.len() as int) == options@);
        assert(r.has(Options::ShowTabs) == options@.contains(Options::ShowTabs));
        assert(r.has(Options::ShowEnds) == options@.contains(Options::ShowEnds));
        assert(r.has(Options::SqueezeBlank) == options@.contains(Options::SqueezeBlank));
        assert(r.has(Options::Number) == options@.contains(Options::Number));
        assert(r.has(Options::NumberNonblank) == options@.contains(Options::NumberNonblank));
        assert(r.has(Options::ShowNonprinting) == options@.contains(Options::ShowNonprinting));
    }
    r
}

} // verus!
