//! Routing of frames over the swarm's key space.
use vstd::prelude::*;

verus! {

/// The decimal digit `d` (for `d` in 0..10) as a character.
pub open spec fn digit_char(d: nat) -> char {
    seq!['0', '1', '2', '3', '4', '5', '6', '7', '8', '9'][d as int]
}

/// The decimal rendering of `n`, without sign or leading zeros.
pub open spec fn decimal(n: nat) -> Seq<char>
    decreases n,
{
    if n < 10 {
        seq![digit_char(n)]
    } else {
        decimal(n / 10).push(digit_char(n % 10))
    }
}

/// The one-character string holding the decimal digit `d`.
fn digit_str(d: u32) -> (r: &'static str)
    requires
        d < 10,
    ensures
        r@ == seq![digit_char(d as nat)],
{
    proof {
        reveal_strlit("0");
        reveal_strlit("1");
        reveal_strlit("2");
        reveal_strlit("3");
        reveal_strlit("4");
        reveal_strlit("5");
        reveal_strlit("6");
        reveal_strlit("7");
        reveal_strlit("8");
        reveal_strlit("9");
    }
    match d {
        0 => "0",
        1 => "1",
        2 => "2",
        3 => "3",
        4 => "4",
        5 => "5",
        6 => "6",
        7 => "7",
        8 => "8",
        _ => "9",
    }
}

/// Appends the decimal rendering of `n` to `s`.
fn push_decimal(s: &mut String, n: u32)
    ensures
        final(s)@ == old(s)@ + decimal(n as nat),
    decreases n,
{
    if n >= 10 {
        push_decimal(s, n / 10);
    }
    let d = digit_str(n % 10);
    s.append(d);
    proof {
        if n >= 10 {
            assert(old(s)@ + decimal(n as nat) =~= old(s)@ + decimal((n / 10) as nat) + seq![digit_char((n % 10) as nat)]);
        } else {
            assert(decimal(n as nat) =~= seq![digit_char((n % 10) as nat)]);
        }
    }
}

/// Defines the routing topology for a message.
#[derive(Debug, Clone, Copy, PartialEq, Eq, Structural)]
pub enum SwarmTarget {
    /// Broadcast to the entire swarm.
    Global,
    /// Multicast to a specific sub-group/mission cluster.
    Cluster(u32),
    /// Unicast to a specific drone.
    Node(u32),
}

/// The key under which `sender` publishes to `target`.
pub open spec fn spec_key_expr(target: SwarmTarget, sender: u32) -> Seq<char> {
    match target {
        SwarmTarget::Global => "ringil/swarm/global/"@ + decimal(sender as nat),
        SwarmTarget::Cluster(cid) => "ringil/swarm/cluster/"@ + decimal(cid as nat) + "/"@
            + decimal(sender as nat),
        SwarmTarget::Node(id) => "ringil/swarm/node/"@ + decimal(id as nat) + "/"@ + decimal(sender as nat),
    }
}

impl SwarmTarget {
    /// Generates the key expression for publishing.
    pub fn to_key_expr(&self, sender_id: u32) -> (r: String)
        ensures
            r@ == spec_key_expr(*self, sender_id),
    {
        let mut s = String::new();
        match self {
            SwarmTarget::Global => {
                s.append("ringil/swarm/global/");
                push_decimal(&mut s, sender_id);
            },
            SwarmTarget::Cluster(cid) => {
                s.append("ringil/swarm/cluster/");
                push_decimal(&mut s, *cid);
                s.append("/");
                push_decimal(&mut s, sender_id);
            },
            SwarmTarget::Node(target_id) => {
                s.append("ringil/swarm/node/");
                push_decimal(&mut s, *target_id);
                s.append("/");
                push_decimal(&mut s, sender_id);
            },
        }
        s
    }
}


/// The subscription pattern for broadcasts.
pub open spec fn spec_global_topic() -> Seq<char> {
    "ringil/swarm/global/*"@
}

/// The subscription pattern for frames sent to node `id`.
pub open spec fn spec_node_topic(id: u32) -> Seq<char> {
    "ringil/swarm/node/"@ + decimal(id as nat) + "/*"@
}

/// The subscription pattern for frames sent to cluster `cid`.
pub open spec fn spec_cluster_topic(cid: u32) -> Seq<char> {
    "ringil/swarm/cluster/"@ + decimal(cid as nat) + "/*"@
}

/// The patterns a node subscribes to: broadcasts, its own address, and its
/// cluster when it has one.
pub open spec fn spec_subscription_topics(drone_id: u32, cluster: Option<u32>) -> Seq<Seq<char>> {
    match cluster {
        Some(cid) => seq![spec_global_topic(), spec_node_topic(drone_id), spec_cluster_topic(cid)],
        None => seq![spec_global_topic(), spec_node_topic(drone_id)],
    }
}

/// The patterns the node `drone_id` subscribes to, in cluster
/// `current_cluster` if any.
pub fn subscription_topics(drone_id: u32, current_cluster: Option<u32>) -> (r: Vec<String>)
    ensures
        r@.len() == spec_subscription_topics(drone_id, current_cluster).len(),
        forall|i: int| 0 <= i < r@.len() ==> #[trigger] r@[i]@ == spec_subscription_topics(drone_id, current_cluster)[i],
{
    let mut topics: Vec<String> = Vec::new();
    topics.push(String::from_str("ringil/swarm/global/*"));
    let mut node = String::new();
    node.append("ringil/swarm/node/");
    push_decimal(&mut node, drone_id);
    node.append("/*");
    topics.push(node);
    match current_cluster {
        Some(cid) => {
            let mut cluster = String::new();
            cluster.append("ringil/swarm/cluster/");
            push_decimal(&mut cluster, cid);
            cluster.append("/*");
            topics.push(cluster);
        },
        None => {},
    }
    topics
}

/// A key expression pattern ending in `*` matches a key made of the
/// pattern's prefix followed by one non-empty chunk free of `/`.
pub open spec fn topic_matches(pattern: Seq<char>, key: Seq<char>) -> bool {
    let n = pattern.len() - 1;
    &&& pattern.len() >= 1
    &&& pattern.last() == '*'
    &&& key.len() > n
    &&& key.subrange(0, n) == pattern.subrange(0, n)
    &&& forall|i: int| n <= i < key.len() ==> key[i] != '/'
}

/// A decimal rendering is made of digits only.
pub proof fn lemma_decimal_digits(n: nat)
    ensures
        decimal(n).len() >= 1,
        n >= 10 ==> decimal(n).len() >= 2,
        forall|i: int| 0 <= i < decimal(n).len() ==> #[trigger] decimal(n)[i] != '/',
    decreases n,
{
    if n >= 10 {
        lemma_decimal_digits(n / 10);
        let s = decimal(n / 10);
        assert forall|i: int| 0 <= i < decimal(n).len() implies #[trigger] decimal(n)[i] != '/' by {
            if i < s.len() {
                assert(decimal(n)[i] == s[i]);
            }
        }
    }
}

/// Distinct digits are distinct characters.
proof fn lemma_digit_char_injective(a: nat, b: nat)
    requires
        a < 10,
        b < 10,
        digit_char(a) == digit_char(b),
    ensures
        a == b,
{
    let ds = seq!['0', '1', '2', '3', '4', '5', '6', '7', '8', '9'];
    assert(forall|i: int, j: int| 0 <= i < 10 && 0 <= j < 10 && i != j ==> ds[i] != ds[j]) by {
        assert(ds[0] == '0' && ds[1] == '1' && ds[2] == '2' && ds[3] == '3' && ds[4] == '4');
        assert(ds[5] == '5' && ds[6] == '6' && ds[7] == '7' && ds[8] == '8' && ds[9] == '9');
    }
}

/// Two numbers with the same decimal rendering are equal.
pub proof fn lemma_decimal_injective(m: nat, n: nat)
    requires
        decimal(m) == decimal(n),
    ensures
        m == n,
    decreases m + n,
{
    lemma_decimal_digits(m);
    lemma_decimal_digits(n);
    if m >= 10 && n >= 10 {
        assert(decimal(m).last() == decimal(n).last());
        assert(decimal(m).last() == digit_char(m % 10));
        assert(decimal(n).last() == digit_char(n % 10));
        assert(decimal(m / 10) == decimal(m).drop_last());
        assert(decimal(n / 10) == decimal(n).drop_last());
        lemma_decimal_injective(m / 10, n / 10);
        lemma_digit_char_injective(m % 10, n % 10);
    } else if m < 10 && n < 10 {
        assert(decimal(m)[0] == decimal(n)[0]);
        assert(decimal(m)[0] == digit_char(m));
        assert(decimal(n)[0] == digit_char(n));
        lemma_digit_char_injective(m, n);
    }
}

/// Delivery: whatever `sender` publishes to the swarm, to node `drone_id`,
/// or to cluster `cid` reaches the subscriptions of node `drone_id` in
/// cluster `cid`.
pub proof fn lemma_subscriptions_receive(sender: u32, drone_id: u32, cid: u32)
    ensures
        topic_matches(spec_subscription_topics(drone_id, Some(cid))[0], spec_key_expr(SwarmTarget::Global, sender)),
        topic_matches(spec_subscription_topics(drone_id, Some(cid))[1], spec_key_expr(SwarmTarget::Node(drone_id), sender)),
        topic_matches(spec_subscription_topics(drone_id, Some(cid))[2], spec_key_expr(SwarmTarget::Cluster(cid), sender)),
        topic_matches(spec_subscription_topics(drone_id, None)[1], spec_key_expr(SwarmTarget::Node(drone_id), sender)),
{
    reveal_strlit("ringil/swarm/global/*");
    reveal_strlit("ringil/swarm/global/");
    reveal_strlit("ringil/swarm/node/");
    reveal_strlit("ringil/swarm/cluster/");
    reveal_strlit("/*");
    reveal_strlit("/");
    lemma_decimal_digits(sender as nat);
    let d = decimal(sender as nat);
    let g = spec_key_expr(SwarmTarget::Global, sender);
    assert(g.subrange(0, 20) =~= spec_global_topic().subrange(0, 20));
    assert forall|i: int| 20 <= i < g.len() implies g[i] != '/' by {
        assert(g[i] == d[i - 20]);
    }
    let nd = decimal(drone_id as nat);
    let k = spec_key_expr(SwarmTarget::Node(drone_id), sender);
    let t = spec_node_topic(drone_id);
    let n = t.len() - 1;
    assert(k.subrange(0, n) =~= t.subrange(0, n));
    assert forall|i: int| n <= i < k.len() implies k[i] != '/' by {
        assert(k[i] == d[i - n]);
    }
    let cd = decimal(cid as nat);
    let kc = spec_key_expr(SwarmTarget::Cluster(cid), sender);
    let tc = spec_cluster_topic(cid);
    let nc = tc.len() - 1;
    assert(kc.subrange(0, nc) =~= tc.subrange(0, nc));
    assert forall|i: int| nc <= i < kc.len() implies kc[i] != '/' by {
        assert(kc[i] == d[i - nc]);
    }
}

/// A key `prefix + decimal(a) + "/" + decimal(s)` matches the pattern
/// `prefix + decimal(b) + "/*"` only when `a == b`.
proof fn lemma_addressed_key_isolated(prefix: Seq<char>, a: u32, b: u32, s: u32)
    requires
        topic_matches(prefix + decimal(b as nat) + "/*"@, prefix + decimal(a as nat) + "/"@ + decimal(s as nat)),
    ensures
        a == b,
{
    reveal_strlit("/*");
    reveal_strlit("/");
    let k = prefix + decimal(a as nat) + "/"@ + decimal(s as nat);
    let t = prefix + decimal(b as nat) + "/*"@;
    let da = decimal(a as nat);
    let db = decimal(b as nat);
    let p = prefix.len() as int;
    lemma_decimal_digits(a as nat);
    lemma_decimal_digits(b as nat);
    lemma_decimal_digits(s as nat);
    let n = t.len() - 1;
    assert(n == p + db.len() + 1);
    assert forall|i: int| 0 <= i < n implies k[i] == t[i] by {
        assert(k.subrange(0, n)[i] == t.subrange(0, n)[i]);
    }
    if db.len() < da.len() {
        assert(t[p + db.len() as int] == '/');
        assert(k[p + db.len() as int] == da[db.len() as int]);
    } else if db.len() > da.len() {
        assert(k[p + da.len() as int] == '/');
        assert(t[p + da.len() as int] == db[da.len() as int]);
    } else {
        assert forall|i: int| 0 <= i < da.len() implies da[i] == db[i] by {
            assert(t[p + i] == db[i]);
            assert(k[p + i] == da[i]);
        }
        assert(da =~= db);
        lemma_decimal_injective(a as nat, b as nat);
    }
}

/// Isolation: a frame sent to node `target` matches the node subscription of
/// node `drone_id` only when they are the same node, and a frame sent to
/// cluster `cid` matches the cluster subscription of cluster `member_of`
/// only when they are the same cluster.
pub proof fn lemma_addressed_frames_isolated(sender: u32, target: u32, drone_id: u32, cid: u32, member_of: u32)
    ensures
        topic_matches(spec_node_topic(drone_id), spec_key_expr(SwarmTarget::Node(target), sender)) ==> drone_id
            == target,
        topic_matches(spec_cluster_topic(member_of), spec_key_expr(SwarmTarget::Cluster(cid), sender)) ==> member_of
            == cid,
{
    if topic_matches(spec_node_topic(drone_id), spec_key_expr(SwarmTarget::Node(target), sender)) {
        lemma_addressed_key_isolated("ringil/swarm/node/"@, target, drone_id, sender);
    }
    if topic_matches(spec_cluster_topic(member_of), spec_key_expr(SwarmTarget::Cluster(cid), sender)) {
        lemma_addressed_key_isolated("ringil/swarm/cluster/"@, cid, member_of, sender);
    }
}

/// A broadcast subscription receives no frame addressed to a node or a
/// cluster.
pub proof fn lemma_broadcast_topic_isolated(sender: u32, id: u32)
    ensures
        !topic_matches(spec_global_topic(), spec_key_expr(SwarmTarget::Node(id), sender)),
        !topic_matches(spec_global_topic(), spec_key_expr(SwarmTarget::Cluster(id), sender)),
{
    reveal_strlit("ringil/swarm/global/*");
    reveal_strlit("ringil/swarm/node/");
    reveal_strlit("ringil/swarm/cluster/");
    reveal_strlit("/");
    let g = spec_global_topic();
    let k = spec_key_expr(SwarmTarget::Node(id), sender);
    assert(k[13] == 'n');
    assert(g[13] == 'g');
    if topic_matches(g, k) {
        assert(k.subrange(0, 20)[13] == g.subrange(0, 20)[13]);
    }
    let kc = spec_key_expr(SwarmTarget::Cluster(id), sender);
    assert(kc[13] == 'c');
    if topic_matches(g, kc) {
        assert(kc.subrange(0, 20)[13] == g.subrange(0, 20)[13]);
    }
}

/// Keys of the form `prefix + decimal(a) + "/" + rest` give back `a` and
/// `rest`.
proof fn lemma_addressed_key_split(prefix: Seq<char>, a: u32, b: u32, r1: Seq<char>, r2: Seq<char>)
    requires
        prefix + decimal(a as nat) + "/"@ + r1 == prefix + decimal(b as nat) + "/"@ + r2,
    ensures
        a == b,
        r1 == r2,
{
    reveal_strlit("/");
    let k1 = prefix + decimal(a as nat) + "/"@ + r1;
    let k2 = prefix + decimal(b as nat) + "/"@ + r2;
    let da = decimal(a as nat);
    let db = decimal(b as nat);
    let p = prefix.len() as int;
    lemma_decimal_digits(a as nat);
    lemma_decimal_digits(b as nat);
    if da.len() < db.len() {
        assert(k1[p + da.len() as int] == '/');
        assert(k2[p + da.len() as int] == db[da.len() as int]);
    } else if db.len() < da.len() {
        assert(k2[p + db.len() as int] == '/');
        assert(k1[p + db.len() as int] == da[db.len() as int]);
    } else {
        assert forall|i: int| 0 <= i < da.len() implies da[i] == db[i] by {
            assert(k1[p + i] == da[i]);
            assert(k2[p + i] == db[i]);
        }
        assert(da =~= db);
        lemma_decimal_injective(a as nat, b as nat);
        let q = p + da.len() + 1;
        assert(k1.len() == k2.len());
        assert(k1.len() == p + da.len() + 1 + r1.len());
        assert(k2.len() == p + db.len() + 1 + r2.len());
        assert forall|i: int| 0 <= i < r1.len() implies r1[i] == r2[i] by {
            assert(k1[q + i] == r1[i]);
            assert(k2[q + i] == r2[i]);
        }
        assert(r1 =~= r2);
    }
}

/// Every key starts with `ringil/swarm/` and ends with `/` followed by the
/// sender's decimal number.
pub proof fn lemma_key_expr_shape(target: SwarmTarget, sender: u32)
    ensures
        spec_key_expr(target, sender).len() > decimal(sender as nat).len() + 13,
        spec_key_expr(target, sender).subrange(0, 13) == "ringil/swarm/"@,
        spec_key_expr(target, sender).subrange(
            spec_key_expr(target, sender).len() - decimal(sender as nat).len() - 1,
            spec_key_expr(target, sender).len() as int,
        ) == "/"@ + decimal(sender as nat),
{
    reveal_strlit("ringil/swarm/");
    reveal_strlit("ringil/swarm/global/");
    reveal_strlit("ringil/swarm/node/");
    reveal_strlit("ringil/swarm/cluster/");
    reveal_strlit("/");
    let k = spec_key_expr(target, sender);
    let d = decimal(sender as nat);
    let head = match target {
        SwarmTarget::Global => "ringil/swarm/global"@,
        SwarmTarget::Cluster(cid) => "ringil/swarm/cluster/"@ + decimal(cid as nat),
        SwarmTarget::Node(id) => "ringil/swarm/node/"@ + decimal(id as nat),
    };
    reveal_strlit("ringil/swarm/global");
    assert("ringil/swarm/global/"@ =~= "ringil/swarm/global"@ + "/"@);
    assert(k =~= head + "/"@ + d);
    assert(k.subrange(0, 13) =~= "ringil/swarm/"@);
    assert(k.subrange(k.len() - d.len() - 1, k.len() as int) =~= "/"@ + d);
}

/// Distinct routes or senders never share a key: the key determines the
/// kind of target, its number, and the sender.
pub proof fn lemma_key_expr_injective(t1: SwarmTarget, s1: u32, t2: SwarmTarget, s2: u32)
    ensures
        spec_key_expr(t1, s1) == spec_key_expr(t2, s2) ==> t1 == t2 && s1 == s2,
{
    reveal_strlit("ringil/swarm/global/");
    reveal_strlit("ringil/swarm/node/");
    reveal_strlit("ringil/swarm/cluster/");
    reveal_strlit("/");
    let k1 = spec_key_expr(t1, s1);
    let k2 = spec_key_expr(t2, s2);
    if k1 == k2 {
        let c1 = k1[13];
        let c2 = k2[13];
        assert(c1 == c2);
        match (t1, t2) {
            (SwarmTarget::Global, SwarmTarget::Global) => {
                let g = "ringil/swarm/global/"@;
                let d1 = decimal(s1 as nat);
                let d2 = decimal(s2 as nat);
                assert(k1 == g + d1);
                assert(k2 == g + d2);
                assert(g.len() == 20);
                assert(k1.len() == k2.len());
                assert forall|i: int| 0 <= i < d1.len() implies d1[i] == d2[i] by {
                    assert(k1[20 + i] == d1[i]);
                    assert(k2[20 + i] == d2[i]);
                }
                assert(d1 =~= d2);
                lemma_decimal_injective(s1 as nat, s2 as nat);
            },
            (SwarmTarget::Cluster(a), SwarmTarget::Cluster(b)) => {
                lemma_addressed_key_split("ringil/swarm/cluster/"@, a, b, decimal(s1 as nat), decimal(s2 as nat));
                lemma_decimal_injective(s1 as nat, s2 as nat);
            },
            (SwarmTarget::Node(a), SwarmTarget::Node(b)) => {
                lemma_addressed_key_split("ringil/swarm/node/"@, a, b, decimal(s1 as nat), decimal(s2 as nat));
                lemma_decimal_injective(s1 as nat, s2 as nat);
            },
            _ => {
                assert(c1 == 'g' || c1 == 'c' || c1 == 'n');
                assert(c2 == 'g' || c2 == 'c' || c2 == 'n');
            },
        }
    }
}

} // verus!
