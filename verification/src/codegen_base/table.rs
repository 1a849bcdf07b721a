//! The escapes that the generated code defines for a template, built from its
//! pairs: the lookup table, the escape sequences and the mask.
use vstd::prelude::*;

use crate::codegen_base::generator::{table_entry, Generator};
use crate::codegen_base::pairs::{pair_chars, Pair};
use crate::codegen_base::ranges::{classify, lemma_classify_covers, lemma_groups, sorted_ascii};
use crate::codegen_base::switch::Switch;
use crate::escapes::{masking_wf, Escapes};

verus! {

/// The escapes of a template: the byte-to-position table, the escape sequences and
/// the mask over the escaped bytes.
pub struct TableEscapes {
    table: Vec<u8>,
    quotes: Vec<String>,
    switch: Switch,
}

impl TableEscapes {
    #[verifier::type_invariant]
    spec fn inv(&self) -> bool {
        &&& self.table@.len() == 256
        &&& self.switch.wf()
        &&& forall|c: int| 0 <= c < 256 ==> #[trigger] self.table@[c] <= self.quotes@.len()
    }

    /// The escapes that the code generated from `pairs` defines.
    pub fn new(pairs: &[Pair]) -> (r: TableEscapes)
        requires
            pairs@.len() >= 1,
            sorted_ascii(pair_chars(pairs@)),
        ensures
            masking_wf(r),
            r.spec_escape_len() == pairs@.len(),
            forall|i: int| 0 <= i < pairs@.len() ==> #[trigger] r.spec_escape(i) == pairs@[i].quote@,
            forall|c: u8|
                #![trigger r.spec_compare(c)]
                r.spec_compare(c) <==> exists|k: int| 0 <= k < pairs@.len() && pairs@[k].ch == c,
            forall|k: int|
                0 <= k < pairs@.len() ==> r.spec_position(#[trigger] pairs@[k].ch) == k,
            r.mask() == classify(pair_chars(pairs@)),
    {
        let ghost chs = pair_chars(pairs@);
        proof {
            assert forall|i: int| 0 <= i < pairs@.len() implies #[trigger] pairs@[i].ch < 128 by {
                assert(chs[i] == pairs@[i].ch);
            }
        }
        let generator = Generator::new(pairs);
        let table = generator.static_table();
        let switch = generator.switch();
        let mut quotes: Vec<String> = Vec::new();
        let mut i: usize = 0;
        while i < pairs.len()
            invariant
                i <= pairs@.len(),
                quotes@.len() == i,
                forall|j: int| 0 <= j < i ==> #[trigger] quotes@[j]@ == pairs@[j].quote@,
            decreases pairs@.len() - i,
        {
            quotes.push(pairs[i].quote.clone());
            i = i + 1;
        }
        proof {
            lemma_groups(chs);
            assert forall|c: int| 0 <= c < 256 implies #[trigger] table@[c] <= quotes@.len() by {
                assert(table_entry(chs, c, table@[c] as int));
            }
        }
        let r = TableEscapes { table, quotes, switch };
        proof {
            assert forall|c: u8| #[trigger]
                r.spec_compare(c) == (r.spec_masking(c) && (!r.spec_false_positive()
                    || r.spec_position(c) < r.spec_escape_len())) by {
                assert(table_entry(chs, c as int, table@[c as int] as int));
                if table@[c as int] < pairs@.len() {
                    lemma_classify_covers(chs, table@[c as int] as int);
                }
            }
            assert forall|c: u8| #[trigger]
                r.spec_compare(c) <==> exists|k: int| 0 <= k < pairs@.len() && pairs@[k].ch == c by {
                assert(table_entry(chs, c as int, table@[c as int] as int));
                if table@[c as int] < pairs@.len() {
                    let k = table@[c as int] as int;
                    assert(chs[k] == pairs@[k].ch);
                    assert(pairs@[k].ch == c);
                } else {
                    assert forall|k: int| 0 <= k < pairs@.len() implies pairs@[k].ch != c by {
                        assert(chs[k] == pairs@[k].ch);
                    }
                }
            }
            assert forall|k: int| 0 <= k < pairs@.len() implies r.spec_position(
                #[trigger] pairs@[k].ch,
            ) == k by {
                let c = pairs@[k].ch;
                assert(chs[k] == c);
                assert(table_entry(chs, c as int, table@[c as int] as int));
                if table@[c as int] != k {
                    let j = table@[c as int] as int;
                    if j < k {
                        assert(chs[j] < chs[k]);
                    } else if j > k && j < chs.len() {
                        assert(chs[k] < chs[j]);
                    }
                }
            }
        }
        r
    }

    /// The mask of the escapes.
    pub closed spec fn mask(&self) -> Switch {
        self.switch
    }

    /// The mask of the escapes.
    pub fn switch(&self) -> (r: Switch)
        ensures
            r == self.mask(),
    {
        self.switch
    }
}

impl Escapes for TableEscapes {
    closed spec fn spec_escape_len(&self) -> int {
        self.quotes@.len() as int
    }

    closed spec fn spec_false_positive(&self) -> bool {
        true
    }

    closed spec fn spec_masking(&self, c: u8) -> bool {
        self.switch.contains(c as int)
    }

    closed spec fn spec_escape(&self, i: int) -> Seq<char> {
        self.quotes@[i]@
    }

    closed spec fn spec_position(&self, c: u8) -> int {
        self.table@[c as int] as int
    }

    closed spec fn spec_compare(&self, c: u8) -> bool {
        self.table@[c as int] < self.quotes@.len()
    }

    fn escape_len(&self) -> (r: usize) {
        self.quotes.len()
    }

    fn false_positive(&self) -> (r: bool) {
        true
    }

    fn masking(&self, c: u8) -> (r: bool) {
        proof {
            use_type_invariant(self);
        }
        self.switch.lane(c)
    }

    fn escape(&self, c: usize) -> (r: &str) {
        self.quotes[c].as_str()
    }

    fn position(&self, c: u8) -> (r: usize) {
        proof {
            use_type_invariant(self);
        }
        self.table[c as usize] as usize
    }

    fn byte_byte_compare(&self, c: u8) -> (r: bool) {
        proof {
            use_type_invariant(self);
        }
        (self.table[c as usize] as usize) < self.quotes.len()
    }
}

} // verus!
