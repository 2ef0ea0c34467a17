//! Injection assembler: builds the single payload handed once per page load
//! to the hosting shell. The payload carries, in this order: a re-entrancy
//! guard with the compatibility shim and presence hook; every cached
//! dependency of the enabled scripts, deduplicated in first-seen order; each
//! enabled script's code, wrapped to run after the page load event and
//! isolated so one failure cannot stop the next script; and, last, the
//! listener wiring of the cross-context bridge. Enabled scripts are ordered
//! by ascending `order`, ties keeping collection order.
use vstd::prelude::*;
use vstd::relations::{sorted_by, total_ordering};
use vstd::seq_lib::lemma_sorted_unique;
use base64::Engine;
use crate::meta::dedup_first;
use crate::registry::{Registry, RegistryV, find_dep};
use crate::script::{DepV, Script, ScriptV};
use crate::strutil::{chars_of, match_at, push_all, string_of};

verus! {

broadcast use vstd::seq_lib::group_to_multiset_ensures;

/// The stable comparison the assembler sorts by: ascending order value, ties
/// broken by position in the collection.
pub open spec fn order_leq(ss: Seq<ScriptV>) -> spec_fn(int, int) -> bool {
    |a: int, b: int| ss[a].order < ss[b].order || (ss[a].order == ss[b].order && a <= b)
}

pub proof fn lemma_order_leq_total(ss: Seq<ScriptV>)
    ensures
        total_ordering(order_leq(ss)),
{
    let leq = order_leq(ss);
    assert forall|a: int, b: int| #[trigger] leq(a, b) && #[trigger] leq(b, a) implies a == b by {}
    assert forall|a: int, b: int, c: int|
        #[trigger] leq(a, b) && #[trigger] leq(b, c) implies leq(a, c) by {}
    assert forall|a: int, b: int| #[trigger] leq(a, b) || #[trigger] leq(b, a) by {}
    assert forall|a: int| #[trigger] leq(a, a) by {}
}

/// The indices of the enabled scripts, in collection order.
pub open spec fn enabled_indices(ss: Seq<ScriptV>) -> Seq<int> {
    Seq::new(ss.len(), |i: int| i).filter(|i: int| 0 <= i < ss.len() && ss[i].enabled)
}

/// Those indices sorted by the stable comparison.
pub open spec fn sorted_enabled_indices(ss: Seq<ScriptV>) -> Seq<int> {
    enabled_indices(ss).sort_by(order_leq(ss))
}

/// The enabled scripts, sorted ascending by order, ties keeping collection
/// order.
pub open spec fn sorted_enabled(ss: Seq<ScriptV>) -> Seq<ScriptV> {
    sorted_enabled_indices(ss).map_values(|i: int| ss[i])
}

pub open spec fn usizes_to_ints(v: Seq<usize>) -> Seq<int> {
    v.map_values(|u: usize| u as int)
}

fn leq_exec(scripts: &Vec<Script>, a: usize, b: usize) -> (r: bool)
    requires
        a < scripts.deep_view().len(),
        b < scripts.deep_view().len(),
    ensures
        r == order_leq(scripts.deep_view())(a as int, b as int),
{
    let oa = scripts[a].order;
    let ob = scripts[b].order;
    proof {
        assert(oa as int == scripts.deep_view()[a as int].order);
        assert(ob as int == scripts.deep_view()[b as int].order);
    }
    oa < ob || (oa == ob && a <= b)
}

/// The indices of the enabled scripts, sorted ascending by order with ties
/// keeping collection order.
fn order_indices(scripts: &Vec<Script>) -> (r: Vec<usize>)
    ensures
        usizes_to_ints(r@) == sorted_enabled_indices(scripts.deep_view()),
        forall|t: int| 0 <= t < r@.len() ==> (r@[t] as int) < scripts.deep_view().len(),
{
    let ghost ss = scripts.deep_view();
    let ghost pred = |i: int| 0 <= i < ss.len() && ss[i].enabled;
    let ghost leq = order_leq(ss);

    // collect the enabled indices in collection order
    let mut evec: Vec<usize> = Vec::new();
    let mut k: usize = 0;
    proof {
        reveal(Seq::filter);
        assert(usizes_to_ints(evec@) =~= Seq::new(0, |i: int| i).filter(pred));
    }
    while k < scripts.len()
        invariant
            ss == scripts.deep_view(),
            pred == (|i: int| 0 <= i < ss.len() && ss[i].enabled),
            k <= scripts@.len(),
            ss.len() == scripts@.len(),
            usizes_to_ints(evec@) == Seq::new(k as nat, |i: int| i).filter(pred),
            forall|t: int| 0 <= t < evec@.len() ==> (evec@[t] as int) < ss.len(),
        decreases scripts@.len() - k,
    {
        proof {
            reveal(Seq::filter);
            assert(Seq::new((k + 1) as nat, |i: int| i).drop_last() =~= Seq::new(
                k as nat,
                |i: int| i,
            ));
            assert(Seq::new((k + 1) as nat, |i: int| i).last() == k as int);
        }
        if scripts[k].enabled {
            proof {
                assert(ss[k as int].enabled);
            }
            let ghost pre = usizes_to_ints(evec@);
            evec.push(k);
            proof {
                assert(usizes_to_ints(evec@) =~= pre.push(k as int));
            }
        } else {
            proof {
                assert(!pred(k as int));
            }
        }
        k = k + 1;
    }
    proof {
        assert(Seq::new(ss.len(), |i: int| i) =~= Seq::new(
            scripts@.len() as nat,
            |i: int| i,
        ));
    }

    // stable insertion sort on the index vector
    let mut out: Vec<usize> = Vec::new();
    let mut m: usize = 0;
    proof {
        assert(usizes_to_ints(out@) =~= Seq::<int>::empty());
        assert(usizes_to_ints(evec@).take(0) =~= Seq::<int>::empty());
        assert(usizes_to_ints(out@).to_multiset() =~= usizes_to_ints(evec@).take(
            0,
        ).to_multiset());
    }
    while m < evec.len()
        invariant
            ss == scripts.deep_view(),
            leq == order_leq(ss),
            m <= evec@.len(),
            forall|t: int| 0 <= t < evec@.len() ==> (evec@[t] as int) < ss.len(),
            forall|t: int| 0 <= t < out@.len() ==> (out@[t] as int) < ss.len(),
            sorted_by(usizes_to_ints(out@), leq),
            usizes_to_ints(out@).to_multiset() == usizes_to_ints(evec@).take(
                m as int,
            ).to_multiset(),
        decreases evec@.len() - m,
    {
        let e = evec[m];
        let mut j: usize = 0;
        while j < out.len() && leq_exec(scripts, out[j], e)
            invariant
                ss == scripts.deep_view(),
                leq == order_leq(ss),
                e as int == usizes_to_ints(evec@)[m as int],
                m < evec@.len(),
                (e as int) < ss.len(),
                forall|t: int| 0 <= t < out@.len() ==> (out@[t] as int) < ss.len(),
                j <= out@.len(),
                forall|t: int| 0 <= t < j ==> leq(usizes_to_ints(out@)[t], e as int),
            decreases out@.len() - j,
        {
            j = j + 1;
        }
        let ghost pre = usizes_to_ints(out@);
        out.insert(j, e);
        proof {
            lemma_order_leq_total(ss);
            assert(usizes_to_ints(out@) =~= pre.insert(j as int, e as int));
            assert(pre.insert(j as int, e as int).to_multiset() == pre.to_multiset().insert(
                e as int,
            ));
            assert(usizes_to_ints(evec@).take(m + 1 as int) =~= usizes_to_ints(evec@).take(
                m as int,
            ).push(e as int));
            assert(usizes_to_ints(evec@).take(m as int).push(e as int).to_multiset()
                == usizes_to_ints(evec@).take(m as int).to_multiset().insert(e as int));
            if j < pre.len() {
                assert(!leq(pre[j as int], e as int));
                assert(leq(e as int, pre[j as int]));
            }
            assert forall|x: int, y: int|
                0 <= x < y < usizes_to_ints(out@).len() implies leq(
                usizes_to_ints(out@)[x],
                usizes_to_ints(out@)[y],
            ) by {
                let cur = usizes_to_ints(out@);
                if y < j {
                    assert(cur[x] == pre[x] && cur[y] == pre[y]);
                } else if x > j {
                    assert(cur[x] == pre[x - 1] && cur[y] == pre[y - 1]);
                } else if x == j {
                    assert(cur[x] == e as int && cur[y] == pre[y - 1]);
                    assert(leq(e as int, pre[j as int]));
                    if y - 1 > j {
                        assert(leq(pre[j as int], pre[y - 1]));
                    }
                } else if y == j {
                    assert(cur[x] == pre[x] && cur[y] == e as int);
                    assert(leq(pre[x], e as int));
                } else {
                    // x < j < y
                    assert(cur[x] == pre[x] && cur[y] == pre[y - 1]);
                    assert(leq(pre[x], e as int));
                    assert(leq(e as int, pre[j as int]));
                    if y - 1 > j {
                        assert(leq(pre[j as int], pre[y - 1]));
                    } else {
                        assert(cur[y] == pre[j as int]);
                    }
                }
            }
        }
        m = m + 1;
    }
    proof {
        assert(usizes_to_ints(evec@).take(evec@.len() as int) =~= usizes_to_ints(evec@));
        lemma_order_leq_total(ss);
        enabled_indices(ss).lemma_sort_by_ensures(leq);
        lemma_sorted_unique(usizes_to_ints(out@), sorted_enabled_indices(ss), leq);
    }
    out
}

// --- the payload's text, by section ---

/// The base64 rendering an outside encoder gives to a string's UTF-8 bytes;
/// a function of the characters alone.
pub uninterp spec fn base64_of(s: Seq<char>) -> Seq<char>;

/// Relies on base64's STANDARD engine (Engine::encode): the standard padded
/// base64 encoding of the string's UTF-8 bytes, determined by the characters
/// alone.
#[verifier::external_body]
fn b64(s: &str) -> (r: String)
    ensures
        r@ == base64_of(s@),
{
    base64::engine::general_purpose::STANDARD.encode(s.as_bytes())
}

/// Opening of the payload: the re-entrancy guard, the base64 decoder, the
/// script-tag injector, and the opening of the compatibility shim injection.
pub const PRELUDE_A_TEXT: &'static str = "(function() {\n  if (window !== window.top) { return; }\n  if (window.__userscriptHostInjected) { return; }\n  window.__userscriptHostInjected = true;\n  function decodeBase64(str) {\n    return decodeURIComponent(atob(str).split('').map(function(c) {\n      return '%' + ('00' + c.charCodeAt(0).toString(16)).slice(-2);\n    }).join(''));\n  }\n  function injectIntoPage(code, name) {\n    var s = document.createElement('script');\n    s.textContent = code;\n    s.setAttribute('data-userscript-host', name || 'userscript');\n    document.documentElement.appendChild(s);\n    s.remove();\n  }\n  function waitForDocumentElement(cb) {\n    if (document.documentElement) {\n      cb();\n    } else {\n      var t = setInterval(function() {\n        if (document.documentElement) { clearInterval(t); cb(); }\n      }, 1);\n    }\n  }\n  waitForDocumentElement(function() {\n    injectIntoPage(decodeBase64('";

pub open spec fn prelude_a() -> Seq<char> {
    PRELUDE_A_TEXT@
}

/// The compatibility shim placed in the page's own context: storage get,
/// set, delete and list; style injection; the cross-origin HTTP primitive
/// and the external-open primitive, both dispatching through the bridge; and
/// the presence hook, which polls a bounded number of times for the
/// third-party event object and never throws when it is absent.
pub const API_SHIM_TEXT: &'static str = "window.unsafeWindow = window;\nwindow.GM_info = { script: { name: 'Userscript Host', version: '1.0' }, scriptHandler: 'Userscript Host', version: '1.0' };\nwindow.GM_getValue = function(key, dflt) { try { var v = localStorage.getItem('gm_' + key); return v !== null ? JSON.parse(v) : dflt; } catch (e) { return dflt; } };\nwindow.GM_setValue = function(key, value) { try { localStorage.setItem('gm_' + key, JSON.stringify(value)); } catch (e) {} };\nwindow.GM_deleteValue = function(key) { try { localStorage.removeItem('gm_' + key); } catch (e) {} };\nwindow.GM_listValues = function() { var ks = []; try { for (var i = 0; i < localStorage.length; i++) { var k = localStorage.key(i); if (k.indexOf('gm_') === 0) { ks.push(k.substring(3)); } } } catch (e) {} return ks; };\nwindow.GM_addStyle = function(css) { var st = document.createElement('style'); st.textContent = css; (document.head || document.documentElement).appendChild(st); };\nwindow.GM_xmlhttpRequest = function(details) {\n  var id = 'xhr_' + Date.now() + '_' + Math.random().toString(36).substr(2, 9);\n  var h = function(ev) {\n    if (ev.detail && ev.detail.requestId === id) {\n      window.removeEventListener('gm_xhr_response', h);\n      if (ev.detail.error) { if (details.onerror) { details.onerror(ev.detail.error); } }\n      else if (details.onload) { details.onload({ responseText: ev.detail.responseText, status: ev.detail.status, statusText: ev.detail.statusText, responseHeaders: ev.detail.responseHeaders }); }\n    }\n  };\n  window.addEventListener('gm_xhr_response', h);\n  window.dispatchEvent(new CustomEvent('gm_xhr_request', { detail: { requestId: id, url: details.url, method: details.method || 'GET', headers: details.headers || null, data: details.data || null } }));\n};\nwindow.GM_openInTab = function(url, opts) { window.dispatchEvent(new CustomEvent('gm_open_external', { detail: { url: url } })); };\nvar unsafeWindow = window.unsafeWindow; var GM_info = window.GM_info; var GM_getValue = window.GM_getValue; var GM_setValue = window.GM_setValue; var GM_deleteValue = window.GM_deleteValue; var GM_listValues = window.GM_listValues; var GM_addStyle = window.GM_addStyle; var GM_xmlhttpRequest = window.GM_xmlhttpRequest; var GM_openInTab = window.GM_openInTab;\n(function() {\n  if (window.__presenceHookInstalled) { return; }\n  window.__presenceHookInstalled = true;\n  var tries = 0;\n  var timer = setInterval(function() {\n    tries++;\n    var gef = window.GeoGuessrEventFramework;\n    if (gef && gef.events) {\n      clearInterval(timer);\n      try {\n        gef.events.addEventListener('game_start', function(ev) {\n          var map = ev.detail && ev.detail.map && ev.detail.map.name ? ev.detail.map.name : 'Playing';\n          window.postMessage({ type: 'gg_invoke', requestId: 'presence_' + Date.now(), command: 'discord_update_presence', args: { details: map, presence_state: 'Round 1', start_timestamp: null } }, '*');\n        });\n        gef.events.addEventListener('game_end', function(ev) {\n          window.postMessage({ type: 'gg_invoke', requestId: 'presence_' + Date.now(), command: 'discord_update_presence', args: { details: 'Menus', presence_state: null, start_timestamp: null } }, '*');\n        });\n      } catch (e) {}\n    } else if (tries > 20) {\n      clearInterval(timer);\n    }\n  }, 500);\n})();\n";

pub open spec fn api_shim_text() -> Seq<char> {
    API_SHIM_TEXT@
}

/// Closes the shim injection.
pub const PRELUDE_B_TEXT: &'static str = "'), 'api');\n";

pub open spec fn prelude_b() -> Seq<char> {
    PRELUDE_B_TEXT@
}

pub const DEP_OPEN_TEXT: &'static str = "    injectIntoPage(decodeBase64('";

pub open spec fn dep_open() -> Seq<char> {
    DEP_OPEN_TEXT@
}

pub const DEP_CLOSE_TEXT: &'static str = "'), 'dependency');\n";

pub open spec fn dep_close() -> Seq<char> {
    DEP_CLOSE_TEXT@
}

pub const WARN_OPEN_TEXT: &'static str = "    console.warn('missing dependency', decodeBase64('";

pub open spec fn warn_open() -> Seq<char> {
    WARN_OPEN_TEXT@
}

pub const WARN_CLOSE_TEXT: &'static str = "'));\n";

pub open spec fn warn_close() -> Seq<char> {
    WARN_CLOSE_TEXT@
}

/// One dependency entry: the cached code injected, or a diagnostic naming
/// the missing URL; a missing dependency never aborts the payload.
pub open spec fn dep_entry_text(deps: Seq<DepV>, url: Seq<char>) -> Seq<char> {
    match find_dep(deps, url) {
        Some(i) => dep_open() + base64_of(deps[i].code) + dep_close(),
        None => warn_open() + base64_of(url) + warn_close(),
    }
}

/// The dependency section: one entry per URL, in order.
pub open spec fn deps_text(urls: Seq<Seq<char>>, deps: Seq<DepV>) -> Seq<char>
    decreases urls.len(),
{
    if urls.len() == 0 {
        Seq::empty()
    } else {
        dep_entry_text(deps, urls[0]) + deps_text(urls.drop_first(), deps)
    }
}

/// Every dependency URL declared by the scripts, in order.
pub open spec fn all_requires(ss: Seq<ScriptV>) -> Seq<Seq<char>>
    decreases ss.len(),
{
    if ss.len() == 0 {
        Seq::empty()
    } else {
        ss[0].requires + all_requires(ss.drop_first())
    }
}

/// The deduplicated union of the enabled scripts' dependency URLs,
/// first-seen order across scripts in their sorted order.
pub open spec fn dep_union(ss: Seq<ScriptV>) -> Seq<Seq<char>> {
    dedup_first(all_requires(sorted_enabled(ss)))
}

pub const WRAP_A_TEXT: &'static str = "(function() {\n  var runScript = function() {\n    try {\n";

pub open spec fn wrap_a() -> Seq<char> {
    WRAP_A_TEXT@
}

pub const WRAP_B_TEXT: &'static str = "\n    } catch (e) {\n      console.error('userscript failed:', decodeURIComponent(atob('";

pub open spec fn wrap_b() -> Seq<char> {
    WRAP_B_TEXT@
}

pub const WRAP_C_TEXT: &'static str = "').split('').map(function(c) { return '%' + ('00' + c.charCodeAt(0).toString(16)).slice(-2); }).join('')), e);\n    }\n  };\n  if (document.readyState === 'complete') { runScript(); } else { window.addEventListener('load', runScript); }\n})();";

pub open spec fn wrap_c() -> Seq<char> {
    WRAP_C_TEXT@
}

/// One script's code, wrapped to run once the page's load event has fired
/// (or at once if it already has), with any failure caught and reported with
/// the script's name.
pub open spec fn wrap_text(s: ScriptV) -> Seq<char> {
    wrap_a() + s.code + wrap_b() + base64_of(s.name) + wrap_c()
}

pub const INJ_OPEN_TEXT: &'static str = "    injectIntoPage(decodeBase64('";

pub open spec fn inj_open() -> Seq<char> {
    INJ_OPEN_TEXT@
}

pub const INJ_CLOSE_TEXT: &'static str = "'), 'userscript');\n";

pub open spec fn inj_close() -> Seq<char> {
    INJ_CLOSE_TEXT@
}

/// One script's injection block.
pub open spec fn block_text(s: ScriptV) -> Seq<char> {
    inj_open() + base64_of(wrap_text(s)) + inj_close()
}

/// The script section: each enabled script's block, in sorted order.
pub open spec fn scripts_text(ss: Seq<ScriptV>) -> Seq<char>
    decreases ss.len(),
{
    if ss.len() == 0 {
        Seq::empty()
    } else {
        block_text(ss[0]) + scripts_text(ss.drop_first())
    }
}

/// The tail of the payload: the bridge's listener wiring, emitted last so it
/// is installed before any script runs and independent of script order.
pub const BRIDGE_TAIL_TEXT: &'static str = "  });\n  window.addEventListener('gm_xhr_request', function(event) {\n    var d = event.detail;\n    if (!d || !d.requestId || !d.url) { return; }\n    if (window.__TAURI__ && window.__TAURI__.core) {\n      window.__TAURI__.core.invoke('gm_xhr', { request: { url: d.url, method: d.method || 'GET', headers: d.headers, data: d.data } })\n        .then(function(resp) { window.dispatchEvent(new CustomEvent('gm_xhr_response', { detail: { requestId: d.requestId, responseText: resp.response_text, status: resp.status, statusText: resp.status_text, responseHeaders: resp.response_headers } })); })\n        .catch(function(err) { window.dispatchEvent(new CustomEvent('gm_xhr_response', { detail: { requestId: d.requestId, error: err.toString() } })); });\n    } else {\n      window.dispatchEvent(new CustomEvent('gm_xhr_response', { detail: { requestId: d.requestId, error: 'privileged transport not available' } }));\n    }\n  });\n  window.addEventListener('gm_open_external', function(event) {\n    var url = event.detail && event.detail.url;\n    if (!url) { return; }\n    if (window.__TAURI__ && window.__TAURI__.core) {\n      window.__TAURI__.core.invoke('open_external_url', { url: url }).catch(function(e) {});\n    }\n  });\n  window.addEventListener('message', function(event) {\n    var data = event.data;\n    if (!data || !data.type) { return; }\n    if (data.type === 'gg_window_control') {\n      if (window.__TAURI__ && window.__TAURI__.window) {\n        var win = window.__TAURI__.window.getCurrentWindow();\n        if (data.action === 'minimize') { win.minimize(); }\n        else if (data.action === 'maximize') { win.toggleMaximize(); }\n        else if (data.action === 'close') { win.close(); }\n      }\n    }\n    if (data.type === 'gg_invoke') {\n      if (!data.requestId || !data.command) { return; }\n      if (window.__TAURI__ && window.__TAURI__.core) {\n        window.__TAURI__.core.invoke(data.command, data.args || {})\n          .then(function(result) { window.postMessage({ type: 'gg_invoke_response', requestId: data.requestId, result: result }, '*'); })\n          .catch(function(error) { window.postMessage({ type: 'gg_invoke_response', requestId: data.requestId, error: error.toString() }, '*'); });\n      } else {\n        window.postMessage({ type: 'gg_invoke_response', requestId: data.requestId, error: 'privileged transport not available' }, '*');\n      }\n    }\n  });\n})();\n";

pub open spec fn bridge_tail() -> Seq<char> {
    BRIDGE_TAIL_TEXT@
}

/// The whole payload, in the order the contract fixes: prelude and shim,
/// dependency section, script section, bridge wiring.
pub open spec fn payload_spec(reg: RegistryV) -> Seq<char> {
    prelude_a() + base64_of(api_shim_text()) + prelude_b() + deps_text(
        dep_union(reg.scripts),
        reg.deps,
    ) + scripts_text(sorted_enabled(reg.scripts)) + bridge_tail()
}

/// Builds the injection payload for the registry's current state. The
/// payload is a pure function of that state: prelude and shim first, then
/// every deduplicated dependency of the enabled scripts, then each enabled
/// script's wrapped code in ascending order (ties keep collection order),
/// then the bridge wiring.
pub fn build_payload(reg: &Registry) -> (r: String)
    ensures
        r@ == payload_spec(reg@),
{
    let ghost ss = reg@.scripts;
    let ghost sorted = sorted_enabled(ss);
    let idxs = order_indices(&reg.scripts);
    proof {
        assert(sorted.len() == idxs@.len());
        assert forall|q: int| 0 <= q < idxs@.len() implies sorted[q] == ss[idxs@[q] as int] by {
            assert(sorted_enabled_indices(ss)[q] == usizes_to_ints(idxs@)[q]);
        }
    }
    let mut out: Vec<char> = Vec::new();
    let pa = chars_of(PRELUDE_A_TEXT);
    push_all(&mut out, &pa);
    let shim = b64(API_SHIM_TEXT);
    let shim_c = chars_of(shim.as_str());
    push_all(&mut out, &shim_c);
    let pb = chars_of(PRELUDE_B_TEXT);
    push_all(&mut out, &pb);
    let ghost head = prelude_a() + base64_of(api_shim_text()) + prelude_b();
    proof {
        assert(out@ =~= head);
    }

    // every dependency URL the enabled scripts declare, in sorted order
    let mut flat: Vec<String> = Vec::new();
    let mut t: usize = 0;
    proof {
        assert(sorted.take(0) =~= Seq::<ScriptV>::empty());
        assert(flat.deep_view() =~= all_requires(sorted.take(0)));
    }
    while t < idxs.len()
        invariant
            ss == reg@.scripts,
            sorted == sorted_enabled(ss),
            sorted.len() == idxs@.len(),
            forall|q: int| 0 <= q < idxs@.len() ==> (idxs@[q] as int) < ss.len(),
            forall|q: int| 0 <= q < idxs@.len() ==> sorted[q] == ss[idxs@[q] as int],
            ss.len() == reg.scripts@.len(),
            t <= idxs@.len(),
            flat.deep_view() == all_requires(sorted.take(t as int)),
        decreases idxs@.len() - t,
    {
        proof {
            assert(sorted.take(t + 1 as int) =~= sorted.take(t as int).push(sorted[t as int]));
            lemma_all_requires_push(sorted.take(t as int), sorted[t as int]);
        }
        let idx = idxs[t];
        let ghost pre = flat.deep_view();
        let mut q: usize = 0;
        while q < reg.scripts[idx].requires.len()
            invariant
                ss == reg@.scripts,
                ss.len() == reg.scripts@.len(),
                (idx as int) < ss.len(),
                q <= reg.scripts@[idx as int].requires@.len(),
                ss[idx as int].requires == reg.scripts@[idx as int].requires.deep_view(),
                flat.deep_view() == pre + ss[idx as int].requires.take(q as int),
            decreases reg.scripts@[idx as int].requires@.len() - q,
        {
            let ghost fpre = flat.deep_view();
            flat.push(reg.scripts[idx].requires[q].clone());
            proof {
                assert(flat.deep_view() =~= fpre.push(ss[idx as int].requires[q as int]));
                assert(fpre.push(ss[idx as int].requires[q as int]) =~= pre + ss[
                    idx as int
                ].requires.take(q + 1 as int));
            }
            q = q + 1;
        }
        proof {
            assert(ss[idx as int].requires.take(ss[idx as int].requires.len() as int) =~= ss[
                idx as int
            ].requires);
            assert(flat.deep_view() =~= pre + sorted[t as int].requires);
        }
        t = t + 1;
    }
    proof {
        assert(sorted.take(sorted.len() as int) =~= sorted);
    }
    let urls = crate::meta::dedup_strings(flat);

    // the dependency section
    let ghost uv = urls.deep_view();
    proof {
        assert(uv == dep_union(ss));
    }
    let mut t2: usize = 0;
    proof {
        assert(uv.take(0) =~= Seq::<Seq<char>>::empty());
        assert(out@ =~= head + deps_text(uv.take(0), reg@.deps));
    }
    while t2 < urls.len()
        invariant
            ss == reg@.scripts,
            uv == urls.deep_view(),
            head == prelude_a() + base64_of(api_shim_text()) + prelude_b(),
            t2 <= uv.len(),
            uv.len() == urls@.len(),
            out@ == head + deps_text(uv.take(t2 as int), reg@.deps),
        decreases uv.len() - t2,
    {
        proof {
            assert(uv.take(t2 + 1 as int) =~= uv.take(t2 as int).push(uv[t2 as int]));
            lemma_deps_text_push(uv.take(t2 as int), reg@.deps, uv[t2 as int]);
        }
        match reg.find_dep_index(&urls[t2]) {
            Some(i) => {
                proof {
                    crate::registry::lemma_find_dep_props(reg@.deps, uv[t2 as int]);
                }
                push_all(&mut out, &chars_of(DEP_OPEN_TEXT));
                let enc = b64(reg.deps[i].code.as_str());
                push_all(&mut out, &chars_of(enc.as_str()));
                push_all(&mut out, &chars_of(DEP_CLOSE_TEXT));
                proof {
                    assert(out@ =~= head + deps_text(uv.take(t2 + 1 as int), reg@.deps));
                }
            },
            None => {
                push_all(&mut out, &chars_of(WARN_OPEN_TEXT));
                let enc = b64(urls[t2].as_str());
                push_all(&mut out, &chars_of(enc.as_str()));
                push_all(&mut out, &chars_of(WARN_CLOSE_TEXT));
                proof {
                    assert(out@ =~= head + deps_text(uv.take(t2 + 1 as int), reg@.deps));
                }
            },
        }
        t2 = t2 + 1;
    }
    proof {
        assert(uv.take(uv.len() as int) =~= uv);
    }
    let ghost head2 = head + deps_text(dep_union(ss), reg@.deps);
    proof {
        assert(out@ =~= head2);
    }

    // the script section
    let mut t3: usize = 0;
    proof {
        assert(sorted.take(0) =~= Seq::<ScriptV>::empty());
        assert(out@ =~= head2 + scripts_text(sorted.take(0)));
    }
    while t3 < idxs.len()
        invariant
            ss == reg@.scripts,
            sorted == sorted_enabled(ss),
            sorted.len() == idxs@.len(),
            forall|q: int| 0 <= q < idxs@.len() ==> (idxs@[q] as int) < ss.len(),
            forall|q: int| 0 <= q < idxs@.len() ==> sorted[q] == ss[idxs@[q] as int],
            ss.len() == reg.scripts@.len(),
            head2 == prelude_a() + base64_of(api_shim_text()) + prelude_b() + deps_text(
                dep_union(ss),
                reg@.deps,
            ),
            t3 <= idxs@.len(),
            out@ == head2 + scripts_text(sorted.take(t3 as int)),
        decreases idxs@.len() - t3,
    {
        proof {
            assert(sorted.take(t3 + 1 as int) =~= sorted.take(t3 as int).push(sorted[t3 as int]));
            lemma_scripts_text_push(sorted.take(t3 as int), sorted[t3 as int]);
        }
        let idx = idxs[t3];
        let mut wrap: Vec<char> = Vec::new();
        push_all(&mut wrap, &chars_of(WRAP_A_TEXT));
        push_all(&mut wrap, &chars_of(reg.scripts[idx].code.as_str()));
        push_all(&mut wrap, &chars_of(WRAP_B_TEXT));
        let nb = b64(reg.scripts[idx].name.as_str());
        push_all(&mut wrap, &chars_of(nb.as_str()));
        push_all(&mut wrap, &chars_of(WRAP_C_TEXT));
        proof {
            assert(wrap@ =~= wrap_text(sorted[t3 as int]));
        }
        let ws = string_of(&wrap);
        let eb = b64(ws.as_str());
        push_all(&mut out, &chars_of(INJ_OPEN_TEXT));
        push_all(&mut out, &chars_of(eb.as_str()));
        push_all(&mut out, &chars_of(INJ_CLOSE_TEXT));
        proof {
            assert(out@ =~= head2 + scripts_text(sorted.take(t3 + 1 as int)));
        }
        t3 = t3 + 1;
    }
    proof {
        assert(sorted.take(sorted.len() as int) =~= sorted);
    }
    push_all(&mut out, &chars_of(BRIDGE_TAIL_TEXT));
    proof {
        assert(out@ =~= payload_spec(reg@));
    }
    string_of(&out)
}

proof fn lemma_scripts_text_push(ss: Seq<ScriptV>, x: ScriptV)
    ensures
        scripts_text(ss.push(x)) == scripts_text(ss) + block_text(x),
    decreases ss.len(),
{
    if ss.len() == 0 {
        assert(ss.push(x).drop_first() =~= Seq::<ScriptV>::empty());
        assert(block_text(x) + Seq::<char>::empty() =~= block_text(x));
        assert(Seq::<char>::empty() + block_text(x) =~= block_text(x));
        assert(scripts_text(ss.push(x)) == block_text(ss.push(x)[0]) + scripts_text(
            ss.push(x).drop_first(),
        ));
        assert(scripts_text(ss.push(x)) =~= scripts_text(ss) + block_text(x));
    } else {
        assert(ss.push(x).drop_first() =~= ss.drop_first().push(x));
        lemma_scripts_text_push(ss.drop_first(), x);
        assert(block_text(ss[0]) + (scripts_text(ss.drop_first()) + block_text(x)) =~= (block_text(
            ss[0],
        ) + scripts_text(ss.drop_first())) + block_text(x));
        assert(scripts_text(ss.push(x)) == block_text(ss.push(x)[0]) + scripts_text(
            ss.push(x).drop_first(),
        ));
        assert(scripts_text(ss.push(x)) =~= scripts_text(ss) + block_text(x));
    }
}

proof fn lemma_deps_text_push(urls: Seq<Seq<char>>, deps: Seq<DepV>, x: Seq<char>)
    ensures
        deps_text(urls.push(x), deps) == deps_text(urls, deps) + dep_entry_text(deps, x),
    decreases urls.len(),
{
    if urls.len() == 0 {
        assert(urls.push(x).drop_first() =~= Seq::<Seq<char>>::empty());
        assert(dep_entry_text(deps, x) + Seq::<char>::empty() =~= dep_entry_text(deps, x));
        assert(Seq::<char>::empty() + dep_entry_text(deps, x) =~= dep_entry_text(deps, x));
        assert(deps_text(urls.push(x), deps) == dep_entry_text(deps, urls.push(x)[0]) + deps_text(
            urls.push(x).drop_first(),
            deps,
        ));
        assert(deps_text(urls.push(x), deps) =~= deps_text(urls, deps) + dep_entry_text(deps, x));
    } else {
        assert(urls.push(x).drop_first() =~= urls.drop_first().push(x));
        lemma_deps_text_push(urls.drop_first(), deps, x);
        assert(dep_entry_text(deps, urls[0]) + (deps_text(urls.drop_first(), deps)
            + dep_entry_text(deps, x)) =~= (dep_entry_text(deps, urls[0]) + deps_text(
            urls.drop_first(),
            deps,
        )) + dep_entry_text(deps, x));
        assert(deps_text(urls.push(x), deps) == dep_entry_text(deps, urls.push(x)[0]) + deps_text(
            urls.push(x).drop_first(),
            deps,
        ));
        assert(deps_text(urls.push(x), deps) =~= deps_text(urls, deps) + dep_entry_text(deps, x));
    }
}

/// Where the `k`-th script's block begins within the script section.
pub open spec fn section_offset(ss: Seq<ScriptV>, k: int) -> int
    decreases k when 0 <= k
{
    if k <= 0 {
        0
    } else {
        section_offset(ss, k - 1) + block_text(ss[k - 1]).len()
    }
}

proof fn lemma_match_at_concat(a: Seq<char>, t: Seq<char>, p: Seq<char>, i: int)
    requires
        match_at(t, p, i),
    ensures
        match_at(a + t, p, a.len() + i),
{
    assert forall|k: int| 0 <= k < p.len() implies (a + t)[a.len() + i + k] == p[k] by {
        assert((a + t)[a.len() + i + k] == t[i + k]);
    }
}

proof fn lemma_match_at_prefix(x: Seq<char>, t: Seq<char>, p: Seq<char>, i: int)
    requires
        match_at(x, p, i),
    ensures
        match_at(x + t, p, i),
{
    assert forall|k: int| 0 <= k < p.len() implies (x + t)[i + k] == p[k] by {
        assert((x + t)[i + k] == x[i + k]);
    }
}

proof fn lemma_section_offset_shift(ss: Seq<ScriptV>, k: int)
    requires
        1 <= k <= ss.len(),
        ss.len() > 0,
    ensures
        section_offset(ss, k) == block_text(ss[0]).len() + section_offset(ss.drop_first(), k - 1),
    decreases k,
{
    if k == 1 {
        assert(section_offset(ss, 0) == 0);
        assert(section_offset(ss.drop_first(), 0) == 0);
        assert(section_offset(ss, 1) == block_text(ss[0]).len());
    } else {
        lemma_section_offset_shift(ss, k - 1);
        assert(ss.drop_first()[k - 2] == ss[k - 1]);
    }
}

proof fn lemma_block_at(ss: Seq<ScriptV>, k: int)
    requires
        0 <= k < ss.len(),
    ensures
        0 <= section_offset(ss, k),
        match_at(scripts_text(ss), block_text(ss[k]), section_offset(ss, k)),
    decreases k,
{
    let block = block_text(ss[k]);
    let whole = scripts_text(ss);
    assert(whole == block_text(ss[0]) + scripts_text(ss.drop_first()));
    if k == 0 {
        assert forall|t: int| 0 <= t < block.len() implies whole[t] == block[t] by {
            assert((block + scripts_text(ss.drop_first()))[t] == block[t]);
        }
    } else {
        lemma_block_at(ss.drop_first(), k - 1);
        lemma_section_offset_shift(ss, k);
        assert(ss.drop_first()[k - 1] == ss[k]);
        lemma_match_at_concat(
            block_text(ss[0]),
            scripts_text(ss.drop_first()),
            block,
            section_offset(ss.drop_first(), k - 1),
        );
    }
}

proof fn lemma_section_offset_mono(ss: Seq<ScriptV>, k1: int, k2: int)
    requires
        0 <= k1 < k2 <= ss.len(),
    ensures
        section_offset(ss, k1) + block_text(ss[k1]).len() <= section_offset(ss, k2),
    decreases k2,
{
    if k2 == k1 + 1 {
    } else {
        lemma_section_offset_mono(ss, k1, k2 - 1);
    }
}

proof fn lemma_block_text_len(s: ScriptV)
    ensures
        block_text(s).len() > 0,
{
    reveal_strlit("    injectIntoPage(decodeBase64('");
    assert(inj_open().len() > 0);
}

/// Law: for any two enabled scripts where the first carries the strictly
/// lower order, the first's injection block begins strictly before the
/// second's in the assembled payload.
pub proof fn lemma_payload_order(reg: RegistryV, a: int, b: int)
    requires
        0 <= a < reg.scripts.len(),
        0 <= b < reg.scripts.len(),
        reg.scripts[a].enabled,
        reg.scripts[b].enabled,
        reg.scripts[a].order < reg.scripts[b].order,
    ensures
        exists|pa: int, pb: int|
            pa < pb && match_at(payload_spec(reg), block_text(reg.scripts[a]), pa) && match_at(
                payload_spec(reg),
                block_text(reg.scripts[b]),
                pb,
            ),
{
    broadcast use vstd::seq_lib::group_filter_ensures;

    let ss = reg.scripts;
    let leq = order_leq(ss);
    let pred = |i: int| 0 <= i < ss.len() && ss[i].enabled;
    let base = Seq::new(ss.len(), |i: int| i);
    let en = enabled_indices(ss);
    let sorted_i = sorted_enabled_indices(ss);
    let sorted = sorted_enabled(ss);
    lemma_order_leq_total(ss);
    en.lemma_sort_by_ensures(leq);

    // both indices appear among the sorted enabled indices
    assert(base[a] == a && pred(base[a]));
    assert(base[b] == b && pred(base[b]));
    assert(en.contains(a));
    assert(en.contains(b));
    assert(en.to_multiset().contains(a));
    assert(en.to_multiset().contains(b));
    assert(sorted_i.to_multiset().contains(a));
    assert(sorted_i.to_multiset().contains(b));
    assert(sorted_i.contains(a));
    assert(sorted_i.contains(b));
    let pa_i = choose|p: int| 0 <= p < sorted_i.len() && sorted_i[p] == a;
    let pb_i = choose|p: int| 0 <= p < sorted_i.len() && sorted_i[p] == b;

    // the lower order sorts strictly earlier
    assert(a != b);
    assert(pa_i != pb_i);
    if pb_i < pa_i {
        assert(leq(sorted_i[pb_i], sorted_i[pa_i]));
        assert(false);
    }

    // each block sits at its section offset, shifted into the payload
    assert(sorted[pa_i] == ss[a]);
    assert(sorted[pb_i] == ss[b]);
    lemma_block_at(sorted, pa_i);
    lemma_block_at(sorted, pb_i);
    lemma_section_offset_mono(sorted, pa_i, pb_i);
    lemma_block_text_len(sorted[pa_i]);

    let h = prelude_a() + base64_of(api_shim_text()) + prelude_b() + deps_text(
        dep_union(ss),
        reg.deps,
    );
    assert(payload_spec(reg) =~= (h + scripts_text(sorted)) + bridge_tail());
    lemma_match_at_concat(h, scripts_text(sorted), block_text(ss[a]), section_offset(sorted, pa_i));
    lemma_match_at_concat(h, scripts_text(sorted), block_text(ss[b]), section_offset(sorted, pb_i));
    lemma_match_at_prefix(
        h + scripts_text(sorted),
        bridge_tail(),
        block_text(ss[a]),
        h.len() + section_offset(sorted, pa_i),
    );
    lemma_match_at_prefix(
        h + scripts_text(sorted),
        bridge_tail(),
        block_text(ss[b]),
        h.len() + section_offset(sorted, pb_i),
    );
    let wa = h.len() + section_offset(sorted, pa_i);
    let wb = h.len() + section_offset(sorted, pb_i);
    assert(wa < wb);
    assert(match_at(payload_spec(reg), block_text(reg.scripts[a]), wa));
    assert(match_at(payload_spec(reg), block_text(reg.scripts[b]), wb));
}

proof fn lemma_all_requires_push(ss: Seq<ScriptV>, x: ScriptV)
    ensures
        all_requires(ss.push(x)) == all_requires(ss) + x.requires,
    decreases ss.len(),
{
    if ss.len() == 0 {
        assert(ss.push(x).drop_first() =~= Seq::<ScriptV>::empty());
        assert(x.requires + Seq::<Seq<char>>::empty() =~= x.requires);
        assert(Seq::<Seq<char>>::empty() + x.requires =~= x.requires);
        assert(all_requires(ss.push(x)) == ss.push(x)[0].requires + all_requires(
            ss.push(x).drop_first(),
        ));
        assert(all_requires(ss.push(x)) =~= all_requires(ss) + x.requires);
    } else {
        assert(ss.push(x).drop_first() =~= ss.drop_first().push(x));
        lemma_all_requires_push(ss.drop_first(), x);
        assert(ss[0].requires + (all_requires(ss.drop_first()) + x.requires) =~= (ss[0].requires
            + all_requires(ss.drop_first())) + x.requires);
        assert(all_requires(ss.push(x)) == ss.push(x)[0].requires + all_requires(
            ss.push(x).drop_first(),
        ));
        assert(all_requires(ss.push(x)) =~= all_requires(ss) + x.requires);
    }
}

} // verus!

