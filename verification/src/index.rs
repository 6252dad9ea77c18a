//! The option index: the ordered collection of registered options and the
//! set of flags they claim.
//!
//! Registration keeps one invariant: every stored flag is in the used-flags
//! set, and no two records share a flag in either field. Searching needs
//! the collection sorted by long flag, which `sort` establishes.
use vstd::prelude::*;
use crate::flagset::FlagSet;
use crate::generate::gen_short_spec;
use crate::generate::generate_short;
use crate::generate::lemma_gen_short_shape;
use crate::record::CommandOption;
use crate::record::CommandOptionKwargs;
use crate::search::bisect_search_str_key;
use crate::search::keys_sorted;
use crate::search::lemma_filter_contiguous;
use crate::search::lemma_matches_contiguous;
use crate::strings::lemma_lex_asymmetric;
use crate::strings::lemma_lex_connected;
use crate::strings::lemma_lex_transitive;
use crate::strings::lex_le;
use crate::strings::lex_lt;
use crate::strings::str_le;
use crate::strings::str_starts_with;

verus! {

/// Why a registration was refused.
#[derive(Clone, Copy, Debug, PartialEq, Eq, Structural)]
pub enum RegisterError {
    /// A supplied flag, or the derived long flag, is already claimed.
    DuplicateFlag,
    /// The short-flag probe exhausted both of its phases.
    ShortFlagExhausted,
    /// The base name was empty.
    EmptyName,
}

/// Two records claim four pairwise different flag strings.
pub open spec fn distinct_flags(a: CommandOption, b: CommandOption) -> bool {
    a.short@ != b.short@ && a.long@ != b.long@ && a.short@ != b.long@ && a.long@ != b.short@
}

/// The long flags stand in ascending lexicographic order.
pub open spec fn longs_sorted(opts: Seq<CommandOption>) -> bool {
    forall|i: int, j: int|
        0 <= i <= j < opts.len() ==> lex_le(#[trigger] opts[i].long@, #[trigger] opts[j].long@)
}

/// The short flags stand in ascending lexicographic order.
pub open spec fn shorts_sorted(opts: Seq<CommandOption>) -> bool {
    forall|i: int, j: int|
        0 <= i <= j < opts.len() ==> lex_le(#[trigger] opts[i].short@, #[trigger] opts[j].short@)
}

/// The index `post` is `pre` with one record appended: the record carries
/// the given flags, description and extras, both flags are newly claimed,
/// and everything already registered is untouched.
pub open spec fn registered(
    pre: OptionIndex,
    post: OptionIndex,
    short: Seq<char>,
    long: Seq<char>,
    description: Seq<char>,
    kwargs: Option<CommandOptionKwargs>,
) -> bool {
    &&& post.used() == pre.used().insert(short).insert(long)
    &&& post.opts().len() == pre.opts().len() + 1
    &&& post.opts().last().short@ == short
    &&& post.opts().last().long@ == long
    &&& post.opts().last().description@ == description
    &&& post.opts().last().kwargs == kwargs
    &&& forall|i: int| 0 <= i < pre.opts().len() ==> post.opts()[i] == pre.opts()[i]
}

/// Holds the registered options and the flags they have claimed.
pub struct OptionIndex {
    options: Vec<CommandOption>,
    lookup: FlagSet,
}

impl OptionIndex {
    /// The registered options, in storage order.
    pub closed spec fn opts(self) -> Seq<CommandOption> {
        self.options@
    }

    /// The set of claimed flag strings.
    pub closed spec fn used(self) -> Set<Seq<char>> {
        self.lookup@
    }

    /// Every stored flag is claimed in the used-flags set, and no two
    /// records share a flag in either field.
    pub open spec fn wf(self) -> bool {
        &&& forall|i: int|
            0 <= i < self.opts().len() ==> self.used().contains(#[trigger] self.opts()[i].short@)
                && self.used().contains(self.opts()[i].long@)
        &&& forall|i: int, j: int|
            0 <= i < j < self.opts().len() ==> #[trigger] distinct_flags(
                self.opts()[i],
                self.opts()[j],
            )
    }

    /// The collection stands sorted by long flag.
    pub open spec fn sorted_by_long(self) -> bool {
        longs_sorted(self.opts())
    }

    /// An empty index: no options, no claimed flags.
    pub fn new() -> (r: Self)
        ensures
            r.wf(),
            r.opts().len() == 0,
            r.used() == Set::<Seq<char>>::empty(),
    {
        OptionIndex { options: Vec::new(), lookup: FlagSet::new() }
    }

    /// The registered options, read-only.
    pub fn options(&self) -> (r: &Vec<CommandOption>)
        ensures
            r@ == self.opts(),
    {
        &self.options
    }

    /// The used-flags set, read-only.
    pub fn lookup(&self) -> (r: &FlagSet)
        ensures
            r@ == self.used(),
    {
        &self.lookup
    }

    /// Claims both flags of `arg` and appends it to the collection.
    fn add(&mut self, arg: CommandOption)
        requires
            old(self).wf(),
            !old(self).used().contains(arg.short@),
            !old(self).used().contains(arg.long@),
        ensures
            final(self).wf(),
            final(self).opts() == old(self).opts().push(arg),
            final(self).used() == old(self).used().insert(arg.short@).insert(arg.long@),
    {
        self.lookup.insert(arg.short.as_str());
        self.lookup.insert(arg.long.as_str());
        self.options.push(arg);
        proof {
            let n = old(self).opts().len() as int;
            assert forall|i: int, j: int| 0 <= i < j < self.opts().len() implies #[trigger]
            distinct_flags(self.opts()[i], self.opts()[j]) by {
                if j < n {
                    assert(distinct_flags(old(self).opts()[i], old(self).opts()[j]));
                } else {
                    assert(old(self).used().contains(old(self).opts()[i].short@));
                    assert(old(self).used().contains(old(self).opts()[i].long@));
                }
            }
        }
    }

    /// Registers an option under caller-chosen flags. Refused, and the
    /// index left unchanged, when either flag is already claimed.
    pub fn add_option(&mut self, short: &str, long: &str, description: &str) -> (r: Result<
        (),
        RegisterError,
    >)
        requires
            old(self).wf(),
        ensures
            final(self).wf(),
            old(self).used().contains(short@) || old(self).used().contains(long@) ==> r == Err::<(), RegisterError>(
                RegisterError::DuplicateFlag,
            ) && *final(self) == *old(self),
            !old(self).used().contains(short@) && !old(self).used().contains(long@) ==> r == Ok::<(), RegisterError>(())
                && registered(*old(self), *final(self), short@, long@, description@, None),
    {
        if self.lookup.contains(short) || self.lookup.contains(long) {
            return Err(RegisterError::DuplicateFlag);
        }
        let arg = CommandOption {
            short: short.to_owned(),
            long: long.to_owned(),
            description: description.to_owned(),
            kwargs: None,
        };
        self.add(arg);
        Ok(())
    }

    /// Like `add_option`, with an extras bundle attached to the record.
    pub fn add_option_kwargs(
        &mut self,
        short: &str,
        long: &str,
        description: &str,
        kwargs: CommandOptionKwargs,
    ) -> (r: Result<(), RegisterError>)
        requires
            old(self).wf(),
        ensures
            final(self).wf(),
            old(self).used().contains(short@) || old(self).used().contains(long@) ==> r == Err::<(), RegisterError>(
                RegisterError::DuplicateFlag,
            ) && *final(self) == *old(self),
            !old(self).used().contains(short@) && !old(self).used().contains(long@) ==> r == Ok::<(), RegisterError>(())
                && registered(*old(self), *final(self), short@, long@, description@, Some(kwargs)),
    {
        if self.lookup.contains(short) || self.lookup.contains(long) {
            return Err(RegisterError::DuplicateFlag);
        }
        let arg = CommandOption {
            short: short.to_owned(),
            long: long.to_owned(),
            description: description.to_owned(),
            kwargs: Some(kwargs),
        };
        self.add(arg);
        Ok(())
    }

    /// Registers an option from a base name alone. The long flag is `--`
    /// followed by the name; the short flag comes from the two-phase probe
    /// against the current used-flags set. Nothing changes on failure.
    pub fn create_option(&mut self, option: &str, description: &str) -> (r: Result<
        (),
        RegisterError,
    >)
        requires
            old(self).wf(),
        ensures
            final(self).wf(),
            ({
                let name = option@;
                let long = seq!['-', '-'] + name;
                match r {
                    Err(RegisterError::EmptyName) => name.len() == 0 && *final(self) == *old(self),
                    Err(RegisterError::DuplicateFlag) => name.len() > 0 && old(
                        self,
                    ).used().contains(long) && *final(self) == *old(self),
                    Err(RegisterError::ShortFlagExhausted) => name.len() > 0 && !old(
                        self,
                    ).used().contains(long) && gen_short_spec(name, old(self).used()) is None
                        && *final(self) == *old(self),
                    Ok(_) => name.len() > 0 && !old(self).used().contains(long) && (gen_short_spec(
                        name,
                        old(self).used(),
                    ) matches Some(s) && registered(
                        *old(self),
                        *final(self),
                        s,
                        long,
                        description@,
                        None,
                    )),
                }
            }),
    {
        let n = option.unicode_len();
        if n == 0 {
            return Err(RegisterError::EmptyName);
        }
        proof {
            reveal_strlit("--");
        }
        let long = String::from_str("--").concat(option);
        assert(long@ =~= seq!['-', '-'] + option@);
        if self.lookup.contains(long.as_str()) {
            return Err(RegisterError::DuplicateFlag);
        }
        match generate_short(option, &self.lookup) {
            Ok(s) => {
                proof {
                    lemma_gen_short_shape(option@, self.used());
                }
                let arg = CommandOption {
                    short: s,
                    long,
                    description: description.to_owned(),
                    kwargs: None,
                };
                self.add(arg);
                Ok(())
            },
            Err(_) => Err(RegisterError::ShortFlagExhausted),
        }
    }

    /// Like `create_option`, with an extras bundle attached to the record.
    pub fn create_option_kwargs(
        &mut self,
        option: &str,
        description: &str,
        kwargs: CommandOptionKwargs,
    ) -> (r: Result<(), RegisterError>)
        requires
            old(self).wf(),
        ensures
            final(self).wf(),
            ({
                let name = option@;
                let long = seq!['-', '-'] + name;
                match r {
                    Err(RegisterError::EmptyName) => name.len() == 0 && *final(self) == *old(self),
                    Err(RegisterError::DuplicateFlag) => name.len() > 0 && old(
                        self,
                    ).used().contains(long) && *final(self) == *old(self),
                    Err(RegisterError::ShortFlagExhausted) => name.len() > 0 && !old(
                        self,
                    ).used().contains(long) && gen_short_spec(name, old(self).used()) is None
                        && *final(self) == *old(self),
                    Ok(_) => name.len() > 0 && !old(self).used().contains(long) && (gen_short_spec(
                        name,
                        old(self).used(),
                    ) matches Some(s) && registered(
                        *old(self),
                        *final(self),
                        s,
                        long,
                        description@,
                        Some(kwargs),
                    )),
                }
            }),
    {
        let n = option.unicode_len();
        if n == 0 {
            return Err(RegisterError::EmptyName);
        }
        proof {
            reveal_strlit("--");
        }
        let long = String::from_str("--").concat(option);
        assert(long@ =~= seq!['-', '-'] + option@);
        if self.lookup.contains(long.as_str()) {
            return Err(RegisterError::DuplicateFlag);
        }
        match generate_short(option, &self.lookup) {
            Ok(s) => {
                proof {
                    lemma_gen_short_shape(option@, self.used());
                }
                let arg = CommandOption {
                    short: s,
                    long,
                    description: description.to_owned(),
                    kwargs: Some(kwargs),
                };
                self.add(arg);
                Ok(())
            },
            Err(_) => Err(RegisterError::ShortFlagExhausted),
        }
    }
}

/// Sorting and prefix search over a collection of option records. The
/// option index implements it; the contracts speak of the implementor's
/// records, its set of claimed flags, and its own invariant.
pub trait Parser {
    /// The records the parser searches over.
    spec fn records(&self) -> Seq<CommandOption>;

    /// The flag strings the implementor holds claimed.
    spec fn claimed(&self) -> Set<Seq<char>>;

    /// The implementor's well-formedness.
    spec fn inv(&self) -> bool;

    /// Resolves a partial flag to the long flags of the matching records.
    /// A query starting `--` is matched against long flags, one starting
    /// `-` against short flags, and anything else matches nothing. The
    /// result is exact over a collection whose selected field is sorted;
    /// over one that is not, which matches come back is left open.
    fn search_options(&self, option: &str) -> (r: Vec<String>)
        requires
            self.records().len() <= 0x7fff_ffff,
        ensures
            is_long_query(option@) && longs_sorted(self.records()) ==> views_of(r@)
                == long_matches(self.records(), option@),
            is_short_query(option@) && shorts_sorted(self.records()) ==> views_of(r@)
                == short_matches(self.records(), option@),
            !is_long_query(option@) && !is_short_query(option@) ==> r@.len() == 0,
    ;

    /// Re-orders the records ascending by long flag. The same records
    /// stay present, the claimed flags and the invariant are untouched.
    /// Idempotent, as any re-sort of an unchanged collection is.
    fn sort(&mut self)
        ensures
            old(self).inv() ==> final(self).inv(),
            longs_sorted(final(self).records()),
            final(self).claimed() == old(self).claimed(),
            final(self).records().to_multiset() == old(self).records().to_multiset(),
    ;
}

/// Reordering the records changes neither which flags stand in the
/// used-flags set nor that all flags are pairwise distinct: both are
/// properties of which records are present, not of their order.
proof fn lemma_wf_permuted(a: Seq<CommandOption>, b: Seq<CommandOption>, used: Set<Seq<char>>)
    requires
        a.to_multiset() == b.to_multiset(),
        forall|i: int|
            0 <= i < a.len() ==> used.contains(#[trigger] a[i].short@) && used.contains(a[i].long@),
        forall|i: int, j: int| 0 <= i < j < a.len() ==> #[trigger] distinct_flags(a[i], a[j]),
    ensures
        forall|i: int|
            0 <= i < b.len() ==> used.contains(#[trigger] b[i].short@) && used.contains(b[i].long@),
        forall|i: int, j: int| 0 <= i < j < b.len() ==> #[trigger] distinct_flags(b[i], b[j]),
{
    broadcast use vstd::seq_lib::group_to_multiset_ensures;

    assert forall|i: int| 0 <= i < b.len() implies used.contains(#[trigger] b[i].short@)
        && used.contains(b[i].long@) by {
        assert(b.contains(b[i]));
        assert(b.to_multiset().count(b[i]) > 0);
        assert(a.to_multiset().count(b[i]) > 0);
        assert(a.contains(b[i]));
        let k = choose|k: int| 0 <= k < a.len() && a[k] == b[i];
        assert(used.contains(a[k].short@));
    }
    assert(a.no_duplicates()) by {
        assert forall|i: int, j: int|
            0 <= i < a.len() && 0 <= j < a.len() && i != j implies a[i] != a[j] by {
            if i < j {
                assert(distinct_flags(a[i], a[j]));
            } else {
                assert(distinct_flags(a[j], a[i]));
            }
        }
    }
    a.lemma_multiset_has_no_duplicates();
    b.lemma_multiset_has_no_duplicates_conv();
    assert forall|i: int, j: int| 0 <= i < j < b.len() implies #[trigger] distinct_flags(
        b[i],
        b[j],
    ) by {
        assert(b[i] != b[j]);
        assert(b.contains(b[i]));
        assert(b.contains(b[j]));
        assert(b.to_multiset().count(b[i]) > 0);
        assert(b.to_multiset().count(b[j]) > 0);
        assert(a.to_multiset().count(b[i]) > 0);
        assert(a.to_multiset().count(b[j]) > 0);
        assert(a.contains(b[i]));
        assert(a.contains(b[j]));
        let k = choose|k: int| 0 <= k < a.len() && a[k] == b[i];
        let l = choose|l: int| 0 <= l < a.len() && a[l] == b[j];
        if k < l {
            assert(distinct_flags(a[k], a[l]));
        } else {
            assert(distinct_flags(a[l], a[k]));
        }
    }
}

impl Parser for OptionIndex {
    /// The records are the registered options, the claimed flags the
    /// used-flags set, and the invariant the index's own well-formedness.
    open spec fn records(&self) -> Seq<CommandOption> {
        self.opts()
    }

    open spec fn claimed(&self) -> Set<Seq<char>> {
        self.used()
    }

    open spec fn inv(&self) -> bool {
        self.wf()
    }

    fn sort(&mut self) {
        broadcast use vstd::seq_lib::group_to_multiset_ensures;

        let n = self.options.len();
        let mut i: usize = 1;
        while i < n
            invariant
                1 <= i,
                i <= n || n == 0,
                n == self.options@.len(),
                self.lookup == old(self).lookup,
                self.options@.to_multiset() == old(self).options@.to_multiset(),
                forall|a: int, b: int|
                    0 <= a <= b < i && b < n ==> lex_le(
                        #[trigger] self.options@[a].long@,
                        #[trigger] self.options@[b].long@,
                    ),
            decreases n - i,
        {
            broadcast use vstd::seq_lib::group_to_multiset_ensures;

            let ghost s0 = self.options@;
            let x = self.options.remove(i);
            let mut pos: usize = 0;
            while pos < i && str_le(self.options[pos].long.as_str(), x.long.as_str())
                invariant
                    pos <= i,
                    i < s0.len(),
                    n == s0.len(),
                    x == s0[i as int],
                    self.options@ == s0.remove(i as int),
                    forall|a: int| 0 <= a < pos ==> lex_le(#[trigger] s0[a].long@, x.long@),
                decreases i - pos,
            {
                assert(self.options@[pos as int] == s0[pos as int]);
                pos += 1;
            }
            proof {
                assert(forall|a: int| 0 <= a < i ==> #[trigger] self.options@[a] == s0[a]);
                if pos < i {
                    lemma_lex_connected(s0[pos as int].long@, x.long@);
                    assert(lex_lt(x.long@, s0[pos as int].long@));
                }
            }
            self.options.insert(pos, x);
            proof {
                let s2 = self.options@;
                assert(s2.to_multiset() =~= s0.to_multiset()) by {
                    assert(s0.contains(s0[i as int]));
                }
                assert forall|a: int, b: int| 0 <= a <= b < i + 1 && b < n implies lex_le(
                    #[trigger] s2[a].long@,
                    #[trigger] s2[b].long@,
                ) by {
                    let p = pos as int;
                    if a < p {
                        assert(s2[a] == s0[a]);
                    }
                    if b < p {
                        assert(s2[b] == s0[b]);
                    }
                    if a > p {
                        assert(s2[a] == s0[a - 1]);
                    }
                    if b > p {
                        assert(s2[b] == s0[b - 1]);
                    }
                    if a == p && b == p {
                        assert(lex_le(x.long@, x.long@));
                    } else if a == p && b > p {
                        assert(p < i);
                        assert(lex_le(s0[p].long@, s0[b - 1].long@));
                        if lex_lt(s0[p].long@, s0[b - 1].long@) {
                            lemma_lex_transitive(x.long@, s0[p].long@, s0[b - 1].long@);
                        }
                    } else if a < p && b == p {
                        assert(lex_le(s0[a].long@, x.long@));
                    }
                }
            }
            i += 1;
        }
        proof {
            if old(self).wf() {
                lemma_wf_permuted(old(self).opts(), self.opts(), self.used());
            }
        }
    }

    fn search_options(&self, option: &str) -> (r: Vec<String>) {
        let is_long = str_starts_with(option, "--");
        let is_short = !is_long && str_starts_with(option, "-");
        proof {
            reveal_strlit("--");
            reveal_strlit("-");
            assert(is_long == is_long_query(option@)) by {
                if "--"@.is_prefix_of(option@) {
                    assert(option@[0] == option@.subrange(0, 2)[0]);
                    assert(option@[1] == option@.subrange(0, 2)[1]);
                }
                if is_long_query(option@) {
                    assert("--"@ =~= option@.subrange(0, 2));
                }
            }
            assert((is_long || is_short) == ("-"@.is_prefix_of(option@) || is_long)) by {
                if "-"@.is_prefix_of(option@) {
                    assert(option@[0] == option@.subrange(0, 1)[0]);
                }
                if is_short_query(option@) {
                    assert("-"@ =~= option@.subrange(0, 1));
                }
            }
            assert(is_short == is_short_query(option@)) by {
                if "-"@.is_prefix_of(option@) {
                    assert(option@[0] == option@.subrange(0, 1)[0]);
                }
                if is_short_query(option@) {
                    assert("-"@ =~= option@.subrange(0, 1));
                }
            }
        }
        let mut find: Vec<String> = Vec::new();
        if !is_long && !is_short {
            return find;
        }
        let n = self.options.len();
        let mut keys: Vec<String> = Vec::new();
        let mut i: usize = 0;
        while i < n
            invariant
                i <= n,
                n == self.opts().len(),
                keys@.len() == i,
                forall|j: int|
                    0 <= j < i ==> #[trigger] keys@[j] == (if is_long {
                        self.opts()[j].long
                    } else {
                        self.opts()[j].short
                    }),
            decreases n - i,
        {
            if is_long {
                keys.push(self.options[i].long.clone());
            } else {
                keys.push(self.options[i].short.clone());
            }
            i += 1;
        }
        proof {
            if is_long && self.sorted_by_long() {
                assert(keys_sorted(keys@));
            }
            if is_short && shorts_sorted(self.opts()) {
                assert(keys_sorted(keys@));
            }
        }
        let left = bisect_search_str_key(&keys, option, false);
        let right = bisect_search_str_key(&keys, option, true);
        if left != -1 && right != -1 && left <= right {
            let l = left as usize;
            let rr = right as usize;
            let mut j: usize = l;
            while j <= rr
                invariant
                    n == self.opts().len(),
                    l <= j <= rr + 1,
                    rr < n,
                    views_of(find@) == self.opts().subrange(l as int, j as int).map_values(
                        |o: CommandOption| o.long@,
                    ),
                decreases rr + 1 - j,
            {
                let ghost f0 = find@;
                find.push(self.options[j].long.clone());
                proof {
                    let sub0 = self.opts().subrange(l as int, j as int).map_values(
                        |o: CommandOption| o.long@,
                    );
                    let sub1 = self.opts().subrange(l as int, j + 1).map_values(
                        |o: CommandOption| o.long@,
                    );
                    assert(views_of(f0).len() == f0.len());
                    assert(f0.len() == j - l);
                    assert(find@ == f0.push(self.opts()[j as int].long));
                    assert forall|k: int| 0 <= k < j + 1 - l implies #[trigger] views_of(
                        find@,
                    )[k] == sub1[k] by {
                        assert(sub1[k] == self.opts()[l + k].long@);
                        if k < j - l {
                            assert(views_of(f0)[k] == sub0[k]);
                            assert(find@[k] == f0[k]);
                        } else {
                            assert(find@[k] == self.opts()[j as int].long);
                        }
                    }
                    assert(views_of(find@) =~= sub1);
                }
                j += 1;
            }
        }
        proof {
            let q = option@;
            let mode_sorted = (is_long && self.sorted_by_long()) || (is_short && shorts_sorted(
                self.opts(),
            ));
            if mode_sorted {
                assert(keys_sorted(keys@));
                if left == -1 {
                    if is_long {
                        assert forall|i2: int| 0 <= i2 < self.opts().len() implies !q.is_prefix_of(
                            #[trigger] self.opts()[i2].long@,
                        ) by {
                            assert(!q.is_prefix_of(keys@[i2]@));
                        }
                        lemma_no_long_match(self.opts(), q);
                    } else {
                        assert forall|i2: int| 0 <= i2 < self.opts().len() implies !q.is_prefix_of(
                            #[trigger] self.opts()[i2].short@,
                        ) by {
                            assert(!q.is_prefix_of(keys@[i2]@));
                        }
                        lemma_no_short_match(self.opts(), q);
                    }
                    assert(views_of(find@) =~= Seq::<Seq<char>>::empty());
                } else {
                    assert(right >= 0);
                    assert(left <= right);
                    lemma_bounds_give_filter(
                        self.opts(),
                        keys@,
                        q,
                        is_long,
                        left as int,
                        right as int,
                    );
                    if is_long {
                        assert(views_of(find@) == long_matches(self.opts(), q));
                    } else {
                        assert(views_of(find@) == short_matches(self.opts(), q));
                    }
                }
            }
        }
        find
    }
}

/// Views of a list of strings.
pub open spec fn views_of(ss: Seq<String>) -> Seq<Seq<char>> {
    ss.map_values(|s: String| s@)
}

/// The query targets long flags: it starts with `--`.
pub open spec fn is_long_query(q: Seq<char>) -> bool {
    q.len() >= 2 && q[0] == '-' && q[1] == '-'
}

/// The query targets short flags: it starts with `-` but not `--`.
pub open spec fn is_short_query(q: Seq<char>) -> bool {
    q.len() >= 1 && q[0] == '-' && !is_long_query(q)
}

/// The long flags of the records whose long flag the query begins, in
/// storage order.
pub open spec fn long_matches(opts: Seq<CommandOption>, q: Seq<char>) -> Seq<Seq<char>> {
    opts.filter(|o: CommandOption| q.is_prefix_of(o.long@)).map_values(|o: CommandOption| o.long@)
}

/// The long flags of the records whose short flag the query begins, in
/// storage order.
pub open spec fn short_matches(opts: Seq<CommandOption>, q: Seq<char>) -> Seq<Seq<char>> {
    opts.filter(|o: CommandOption| q.is_prefix_of(o.short@)).map_values(|o: CommandOption| o.long@)
}

/// A query that no stored long flag begins matches nothing.
pub proof fn lemma_no_long_match(opts: Seq<CommandOption>, q: Seq<char>)
    requires
        forall|i: int| 0 <= i < opts.len() ==> !q.is_prefix_of(#[trigger] opts[i].long@),
    ensures
        long_matches(opts, q).len() == 0,
{
    let pred = |o: CommandOption| q.is_prefix_of(o.long@);
    assert(opts.all(|o: CommandOption| !pred(o))) by {
        assert forall|i: int| 0 <= i < opts.len() implies !pred(opts[i]) by {}
    }
    opts.lemma_all_neg_filter_empty(pred);
}

/// A query that no stored short flag begins matches nothing.
pub proof fn lemma_no_short_match(opts: Seq<CommandOption>, q: Seq<char>)
    requires
        forall|i: int| 0 <= i < opts.len() ==> !q.is_prefix_of(#[trigger] opts[i].short@),
    ensures
        short_matches(opts, q).len() == 0,
{
    let pred = |o: CommandOption| q.is_prefix_of(o.short@);
    assert(opts.all(|o: CommandOption| !pred(o))) by {
        assert forall|i: int| 0 <= i < opts.len() implies !pred(opts[i]) by {}
    }
    opts.lemma_all_neg_filter_empty(pred);
}

/// Over an empty collection every query matches nothing.
pub proof fn lemma_search_empty(q: Seq<char>)
    ensures
        long_matches(Seq::empty(), q).len() == 0,
        short_matches(Seq::empty(), q).len() == 0,
{
    reveal(Seq::filter);
}

/// When the two bisections bound the block `[left, right]` of keys the
/// query begins, the records whose selected field the query begins are
/// exactly those of that block.
proof fn lemma_bounds_give_filter(
    opts: Seq<CommandOption>,
    keys: Seq<String>,
    q: Seq<char>,
    long_field: bool,
    left: int,
    right: int,
)
    requires
        keys.len() == opts.len(),
        forall|j: int|
            0 <= j < opts.len() ==> #[trigger] keys[j]@ == (if long_field {
                opts[j].long@
            } else {
                opts[j].short@
            }),
        keys_sorted(keys),
        0 <= left <= right < keys.len(),
        q.is_prefix_of(keys[left]@),
        q.is_prefix_of(keys[right]@),
        forall|i: int| 0 <= i < left ==> !q.is_prefix_of(#[trigger] keys[i]@),
        forall|i: int| right < i < keys.len() ==> !q.is_prefix_of(#[trigger] keys[i]@),
    ensures
        long_field ==> opts.filter(|o: CommandOption| q.is_prefix_of(o.long@)) =~= opts.subrange(
            left,
            right + 1,
        ),
        !long_field ==> opts.filter(|o: CommandOption| q.is_prefix_of(o.short@)) =~= opts.subrange(
            left,
            right + 1,
        ),
{
    assert forall|m: int| left <= m <= right implies q.is_prefix_of(#[trigger] keys[m]@) by {
        lemma_matches_contiguous(keys, q, left, m, right);
    }
    if long_field {
        assert forall|i: int| 0 <= i < opts.len() implies (q.is_prefix_of(
            #[trigger] opts[i].long@,
        ) <==> left <= i < right + 1) by {
            assert(keys[i]@ == opts[i].long@);
        }
        lemma_filter_contiguous(
            opts,
            |o: CommandOption| q.is_prefix_of(o.long@),
            left,
            right + 1,
        );
    } else {
        assert forall|i: int| 0 <= i < opts.len() implies (q.is_prefix_of(
            #[trigger] opts[i].short@,
        ) <==> left <= i < right + 1) by {
            assert(keys[i]@ == opts[i].short@);
        }
        lemma_filter_contiguous(
            opts,
            |o: CommandOption| q.is_prefix_of(o.short@),
            left,
            right + 1,
        );
    }
}


/// Two orderings of the same records, both sorted by long flag, are the
/// same sequence when no two records share a long flag: with distinct keys
/// the sorted order is unique.
pub proof fn lemma_sorted_order_unique(a: Seq<CommandOption>, b: Seq<CommandOption>)
    requires
        a.to_multiset() == b.to_multiset(),
        longs_sorted(a),
        longs_sorted(b),
        forall|i: int, j: int|
            0 <= i < j < a.len() ==> #[trigger] a[i].long@ != #[trigger] a[j].long@,
    ensures
        a =~= b,
    decreases a.len(),
{
    broadcast use vstd::seq_lib::group_to_multiset_ensures;

    if a.len() == 0 {
        assert(b.to_multiset().len() == 0);
        assert(a =~= b);
    } else {
        assert(b.len() == a.len()) by {
            assert(a.to_multiset().len() == a.len());
            assert(b.to_multiset().len() == b.len());
        }
        assert(a[0] == b[0]) by {
            assert(a.contains(a[0]));
            assert(a.to_multiset().count(a[0]) > 0);
            assert(b.to_multiset().count(a[0]) > 0);
            assert(b.contains(a[0]));
            let i = choose|i: int| 0 <= i < b.len() && b[i] == a[0];
            assert(b.contains(b[0]));
            assert(b.to_multiset().count(b[0]) > 0);
            assert(a.to_multiset().count(b[0]) > 0);
            assert(a.contains(b[0]));
            let j = choose|j: int| 0 <= j < a.len() && a[j] == b[0];
            assert(lex_le(a[0].long@, a[j].long@));
            assert(lex_le(b[0].long@, b[i].long@));
            assert(a[0].long@ == b[0].long@) by {
                lemma_lex_asymmetric(a[0].long@, b[0].long@);
                lemma_lex_connected(a[0].long@, b[0].long@);
            }
            if j != 0 {
                assert(a[0].long@ != a[j].long@);
            }
        }
        assert(a.drop_first() =~= a.remove(0));
        assert(b.drop_first() =~= b.remove(0));
        assert(a.drop_first().to_multiset() == b.drop_first().to_multiset()) by {
            assert(a.remove(0).to_multiset() =~= a.to_multiset().remove(a[0]));
            assert(b.remove(0).to_multiset() =~= b.to_multiset().remove(b[0]));
        }
        assert forall|i: int, j: int|
            0 <= i < j < a.drop_first().len() implies #[trigger] a.drop_first()[i].long@
            != #[trigger] a.drop_first()[j].long@ by {
            assert(a[i + 1].long@ != a[j + 1].long@);
        }
        lemma_sorted_order_unique(a.drop_first(), b.drop_first());
        assert forall|i: int| 0 <= i < a.len() implies a[i] == b[i] by {
            if i > 0 {
                assert(a.drop_first()[i - 1] == b.drop_first()[i - 1]);
            }
        }
    }
}

/// A re-sort of an already sorted well-formed index cannot move anything:
/// its records are the one sorted arrangement of themselves, so `sort` is
/// idempotent.
pub proof fn lemma_sort_idempotent(pre: OptionIndex, post: OptionIndex)
    requires
        pre.wf(),
        pre.sorted_by_long(),
        post.sorted_by_long(),
        post.opts().to_multiset() == pre.opts().to_multiset(),
    ensures
        post.opts() =~= pre.opts(),
{
    assert forall|i: int, j: int|
        0 <= i < j < pre.opts().len() implies #[trigger] pre.opts()[i].long@
        != #[trigger] pre.opts()[j].long@ by {
        assert(distinct_flags(pre.opts()[i], pre.opts()[j]));
    }
    lemma_sorted_order_unique(pre.opts(), post.opts());
}

} // verus!
