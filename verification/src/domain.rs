use vstd::prelude::*;

verus! {

/// The labels of a domain string, most-significant label first:
/// `"ads.example.com"` splits into `["com", "example", "ads"]`.
///
/// Every string has at least one label (the empty string has one empty
/// label), and consecutive dots yield empty labels, exactly as splitting
/// on `'.'` does.
pub open spec fn labels_of(s: Seq<char>) -> Seq<Seq<char>>
    decreases s.len(),
{
    if s.len() == 0 {
        seq![Seq::<char>::empty()]
    } else if s.last() == '.' {
        seq![Seq::<char>::empty()] + labels_of(s.drop_last())
    } else {
        let rest = labels_of(s.drop_last());
        rest.update(0, rest[0].push(s.last()))
    }
}

pub proof fn lemma_labels_of_nonempty(s: Seq<char>)
    ensures
        labels_of(s).len() >= 1,
    decreases s.len(),
{
    if s.len() > 0 {
        lemma_labels_of_nonempty(s.drop_last());
    }
}

/// Joining two domain strings with a dot concatenates their labels: the
/// right-hand part supplies the most significant labels.
pub proof fn lemma_labels_of_join(p: Seq<char>, d: Seq<char>)
    ensures
        labels_of(p + seq!['.'] + d) == labels_of(d) + labels_of(p),
    decreases d.len(),
{
    let q = p + seq!['.'] + d;
    if d.len() == 0 {
        assert(q =~= p.push('.'));
        assert(q.last() == '.');
        assert(q.drop_last() =~= p);
        assert(labels_of(q) == seq![Seq::<char>::empty()] + labels_of(p));
        assert(labels_of(d) == seq![Seq::<char>::empty()]);
    } else {
        let d1 = d.drop_last();
        lemma_labels_of_join(p, d1);
        lemma_labels_of_nonempty(d1);
        let q1 = p + seq!['.'] + d1;
        assert(q.drop_last() =~= q1);
        assert(q.last() == d.last());
        if d.last() == '.' {
            assert(labels_of(q) == seq![Seq::<char>::empty()] + labels_of(q1));
            assert(labels_of(d) == seq![Seq::<char>::empty()] + labels_of(d1));
            assert(labels_of(q) =~= labels_of(d) + labels_of(p));
        } else {
            let rest = labels_of(q1);
            let restd = labels_of(d1);
            assert(rest == restd + labels_of(p));
            assert(rest[0] == restd[0]);
            assert(labels_of(q) == rest.update(0, rest[0].push(d.last())));
            assert(labels_of(d) == restd.update(0, restd[0].push(d.last())));
            assert(labels_of(q) =~= labels_of(d) + labels_of(p));
        }
    }
}

/// The views of a sequence of exec labels.
pub open spec fn label_views(labels: Seq<String>) -> Seq<Seq<char>> {
    labels.map_values(|l: String| l@)
}

/// Split a domain string into its labels, most-significant label first.
pub fn split_labels(domain: &str) -> (labels: Vec<String>)
    ensures
        label_views(labels@) == labels_of(domain@),
        labels@.len() >= 1,
{
    let n = domain.unicode_len();
    let mut parts: Vec<String> = Vec::new();
    let mut start: usize = 0;
    let mut i: usize = 0;
    proof {
        assert(domain@.subrange(0, 0) =~= Seq::<char>::empty());
        assert(labels_of(domain@.subrange(0, 0)) =~= seq![domain@.subrange(0, 0)] + label_views(
            parts@,
        ));
    }
    while i < n
        invariant
            start <= i <= n,
            n == domain@.len(),
            labels_of(domain@.subrange(0, i as int)) == seq![
                domain@.subrange(start as int, i as int),
            ] + label_views(parts@),
        decreases n - i,
    {
        let ghost pre = domain@.subrange(0, i as int);
        let ghost post = domain@.subrange(0, i + 1 as int);
        proof {
            assert(post.drop_last() =~= pre);
            assert(post.last() == domain@[i as int]);
        }
        if domain.get_char(i) == '.' {
            let lab = domain.substring_char(start, i).to_owned();
            parts.insert(0, lab);
            proof {
                assert(domain@.subrange(i + 1, i + 1) =~= Seq::<char>::empty());
                assert(labels_of(post) =~= seq![Seq::<char>::empty()] + labels_of(pre));
                assert(label_views(parts@) =~= seq![domain@.subrange(start as int, i as int)]
                    + label_views(parts@.drop_first()));
                assert(labels_of(post) =~= seq![domain@.subrange(i + 1, i + 1)] + label_views(
                    parts@,
                ));
            }
            start = i + 1;
        } else {
            proof {
                let rest = labels_of(pre);
                assert(rest == seq![domain@.subrange(start as int, i as int)] + label_views(
                    parts@,
                ));
                assert(rest[0] == domain@.subrange(start as int, i as int));
                assert(rest[0].push(post.last()) =~= domain@.subrange(start as int, i + 1));
                assert(labels_of(post) =~= rest.update(0, rest[0].push(post.last())));
                assert(labels_of(post) =~= seq![domain@.subrange(start as int, i + 1)]
                    + label_views(parts@));
            }
        }
        i += 1;
    }
    let lab = domain.substring_char(start, n).to_owned();
    parts.insert(0, lab);
    proof {
        assert(domain@.subrange(0, n as int) =~= domain@);
        assert(label_views(parts@) =~= seq![domain@.subrange(start as int, n as int)]
            + label_views(parts@.drop_first()));
        assert(label_views(parts@) =~= labels_of(domain@));
    }
    parts
}

} // verus!
